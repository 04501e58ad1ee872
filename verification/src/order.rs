//! The order in which the tubes of a tubing are kept.

use vstd::prelude::*;
use vstd::relations::{sorted_by, total_ordering};
use vstd::seq_lib::lemma_sorted_unique;

verus! {

/// The dictionary order of two tubes: by the first vertex in which they
/// differ, a tube coming before those that prolong it.
pub open spec fn lex_le(a: Seq<usize>, b: Seq<usize>) -> bool
    decreases a.len(),
{
    if a.len() == 0 {
        true
    } else if b.len() == 0 {
        false
    } else if a[0] != b[0] {
        a[0] < b[0]
    } else {
        lex_le(a.drop_first(), b.drop_first())
    }
}

/// The dictionary order as a relation.
pub open spec fn tube_le() -> spec_fn(Seq<usize>, Seq<usize>) -> bool {
    |a: Seq<usize>, b: Seq<usize>| lex_le(a, b)
}

/// The tubes of `t` stand in dictionary order.
pub open spec fn lex_sorted(t: Seq<Seq<usize>>) -> bool {
    sorted_by(t, tube_le())
}

/// `y` holds the tubes of `x`, each as often, in dictionary order.
pub open spec fn lex_form_of(x: Seq<Seq<usize>>, y: Seq<Seq<usize>>) -> bool {
    lex_sorted(y) && y.to_multiset() == x.to_multiset()
}

proof fn lemma_lex_refl(a: Seq<usize>)
    ensures
        lex_le(a, a),
    decreases a.len(),
{
    if a.len() > 0 {
        lemma_lex_refl(a.drop_first());
    }
}

proof fn lemma_lex_antisym(a: Seq<usize>, b: Seq<usize>)
    requires
        lex_le(a, b),
        lex_le(b, a),
    ensures
        a == b,
    decreases a.len(),
{
    if a.len() == 0 || b.len() == 0 {
        assert(a =~= b);
    } else {
        lemma_lex_antisym(a.drop_first(), b.drop_first());
        assert(a =~= seq![a[0]] + a.drop_first());
        assert(b =~= seq![b[0]] + b.drop_first());
    }
}

proof fn lemma_lex_trans(a: Seq<usize>, b: Seq<usize>, c: Seq<usize>)
    requires
        lex_le(a, b),
        lex_le(b, c),
    ensures
        lex_le(a, c),
    decreases a.len(),
{
    if a.len() > 0 && b.len() > 0 && c.len() > 0 {
        if a[0] == b[0] && b[0] == c[0] {
            lemma_lex_trans(a.drop_first(), b.drop_first(), c.drop_first());
        }
    }
}

proof fn lemma_lex_total(a: Seq<usize>, b: Seq<usize>)
    ensures
        lex_le(a, b) || lex_le(b, a),
    decreases a.len(),
{
    if a.len() > 0 && b.len() > 0 && a[0] == b[0] {
        lemma_lex_total(a.drop_first(), b.drop_first());
    }
}

/// The dictionary order is a total order.
pub proof fn lemma_lex_total_ordering()
    ensures
        total_ordering(tube_le()),
{
    let r = tube_le();
    assert forall|x: Seq<usize>| #[trigger] r(x, x) by {
        lemma_lex_refl(x);
    }
    assert forall|x: Seq<usize>, y: Seq<usize>| #[trigger] r(x, y) && #[trigger] r(y, x) implies x
        == y by {
        lemma_lex_antisym(x, y);
    }
    assert forall|x: Seq<usize>, y: Seq<usize>, z: Seq<usize>| #[trigger]
        r(x, y) && #[trigger] r(y, z) implies r(x, z) by {
        lemma_lex_trans(x, y, z);
    }
    assert forall|x: Seq<usize>, y: Seq<usize>| #[trigger] r(x, y) || #[trigger] r(y, x) by {
        lemma_lex_total(x, y);
    }
}

/// A list of tubes has one form in dictionary order only.
pub proof fn lemma_lex_form_unique(x: Seq<Seq<usize>>, y: Seq<Seq<usize>>, z: Seq<Seq<usize>>)
    requires
        lex_form_of(x, y),
        lex_form_of(x, z),
    ensures
        y == z,
{
    lemma_lex_total_ordering();
    lemma_sorted_unique(y, z, tube_le());
}

} // verus!
