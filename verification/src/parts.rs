//! The parts of a vertex list: what is left when some positions are struck.

use vstd::prelude::*;
use vstd::relations::{sorted_by, total_ordering};
use vstd::seq_lib::lemma_sorted_unique;
use crate::outside::combinations;
use crate::tube::tubes_of;

verus! {

/// `idx` lists positions below `n` in strictly rising order.
pub open spec fn is_selection(idx: Seq<int>, n: nat) -> bool {
    &&& forall|i: int| 0 <= i < idx.len() ==> 0 <= #[trigger] idx[i] < n
    &&& forall|i: int, j: int| 0 <= i < j < idx.len() ==> idx[i] < idx[j]
}

/// The items at the positions `idx`.
pub open spec fn pick(items: Seq<usize>, idx: Seq<int>) -> Seq<usize> {
    idx.map_values(|i: int| items[i])
}

/// `c` holds the items at `k` positions of `items`, in their order.
pub open spec fn is_combination(items: Seq<usize>, k: nat, c: Seq<usize>) -> bool {
    exists|idx: Seq<int>|
        is_selection(idx, items.len()) && idx.len() == k && c == #[trigger] pick(items, idx)
}

/// `c` holds the items at fewer than `bound` positions of `items`.
pub open spec fn is_part_below(items: Seq<usize>, bound: nat, c: Seq<usize>) -> bool {
    exists|k: nat| k < bound && #[trigger] is_combination(items, k, c)
}

/// `c` holds the items at some, but not all, positions of `items`.
pub open spec fn is_proper_part(items: Seq<usize>, c: Seq<usize>) -> bool {
    is_part_below(items, items.len(), c)
}

/// The order of vertices.
pub open spec fn vertex_le() -> spec_fn(usize, usize) -> bool {
    |a: usize, b: usize| a <= b
}

/// `c` is in rising order.
pub open spec fn ascending(c: Seq<usize>) -> bool {
    sorted_by(c, vertex_le())
}

/// `c` is `p` put in rising order.
pub open spec fn sorted_form_of(p: Seq<usize>, c: Seq<usize>) -> bool {
    ascending(c) && c.to_multiset() == p.to_multiset()
}

/// A list has one sorted form only.
pub proof fn lemma_sorted_form_unique(p: Seq<usize>, c: Seq<usize>, d: Seq<usize>)
    requires
        sorted_form_of(p, c),
        sorted_form_of(p, d),
    ensures
        c == d,
{
    assert(total_ordering(vertex_le()));
    lemma_sorted_unique(c, d, vertex_le());
}

/// A list and its sorted form have the same members.
pub proof fn lemma_sorted_form_members(p: Seq<usize>, c: Seq<usize>)
    requires
        c.to_multiset() == p.to_multiset(),
    ensures
        forall|x: usize| p.contains(x) <==> c.contains(x),
{
    broadcast use vstd::seq_lib::group_to_multiset_ensures;

    assert forall|x: usize| p.contains(x) <==> c.contains(x) by {
        assert(p.contains(x) <==> p.to_multiset().count(x) > 0);
        assert(c.contains(x) <==> c.to_multiset().count(x) > 0);
    }
}

/// The tubes of two lists joined are the tubes of the first and then those
/// of the second.
pub proof fn lemma_tubes_of_concat(a: Seq<Vec<usize>>, b: Seq<Vec<usize>>)
    ensures
        tubes_of(a + b) == tubes_of(a) + tubes_of(b),
        forall|c: Seq<usize>|
            tubes_of(a + b).contains(c) <==> tubes_of(a).contains(c) || tubes_of(b).contains(c),
{
    let l = tubes_of(a + b);
    let r = tubes_of(a) + tubes_of(b);
    assert(l =~= r);
    assert forall|c: Seq<usize>| l.contains(c) <==> tubes_of(a).contains(c) || tubes_of(
        b,
    ).contains(c) by {
        if l.contains(c) {
            let i = choose|i: int| 0 <= i < r.len() && r[i] == c;
            if i < a.len() {
                assert(tubes_of(a)[i] == c);
            } else {
                assert(tubes_of(b)[i - a.len()] == c);
            }
        }
        if tubes_of(a).contains(c) {
            let i = choose|i: int| 0 <= i < a.len() && tubes_of(a)[i] == c;
            assert(r[i] == c);
        }
        if tubes_of(b).contains(c) {
            let i = choose|i: int| 0 <= i < b.len() && tubes_of(b)[i] == c;
            assert(r[i + a.len()] == c);
        }
    }
}

/// All the parts of `items` but `items` itself: for each number of positions
/// below the length, every choice of that many positions.
pub fn subsets(items: &Vec<usize>) -> (r: Vec<Vec<usize>>)
    ensures
        forall|c: Seq<usize>| tubes_of(r@).contains(c) <==> is_proper_part(items@, c),
{
    let mut result: Vec<Vec<usize>> = Vec::new();
    let mut count: usize = 0;
    while count < items.len()
        invariant
            count <= items.len(),
            forall|c: Seq<usize>|
                tubes_of(result@).contains(c) <==> is_part_below(items@, count as nat, c),
        decreases items.len() - count,
    {
        let mut combos = combinations(items, count);
        let ghost before = result@;
        let ghost added = combos@;
        result.append(&mut combos);
        proof {
            lemma_tubes_of_concat(before, added);
            assert forall|c: Seq<usize>|
                tubes_of(result@).contains(c) <==> is_part_below(
                    items@,
                    (count + 1) as nat,
                    c,
                ) by {
                if is_part_below(items@, (count + 1) as nat, c) {
                    let k = choose|k: nat| k < count + 1 && #[trigger] is_combination(items@, k, c);
                    if k < count {
                        assert(is_part_below(items@, count as nat, c));
                    }
                }
                if tubes_of(before).contains(c) {
                    let k = choose|k: nat| k < count && #[trigger] is_combination(items@, k, c);
                    assert(k < count + 1);
                }
                if tubes_of(added).contains(c) {
                    assert(is_combination(items@, count as nat, c));
                }
            }
        }
        count += 1;
    }
    result
}

} // verus!
