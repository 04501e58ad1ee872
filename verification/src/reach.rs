//! Walks and reachability inside a vertex subset.

use vstd::prelude::*;
use vstd::seq_lib::seq_to_set_is_finite;
use vstd::set_lib::lemma_len_subset;

verus! {

/// Some edge joins `a` and `b`, in either direction.
pub open spec fn adjacent(edges: Seq<[usize; 2]>, a: usize, b: usize) -> bool {
    exists|k: int|
        0 <= k < edges.len() && ((#[trigger] edges[k])[0] == a && edges[k][1] == b || edges[k][0]
            == b && edges[k][1] == a)
}

/// `p` is a non-empty walk that stays inside `s` and follows edges.
pub open spec fn is_walk(edges: Seq<[usize; 2]>, s: Seq<usize>, p: Seq<usize>) -> bool {
    &&& p.len() > 0
    &&& forall|i: int| 0 <= i < p.len() ==> s.contains(#[trigger] p[i])
    &&& forall|i: int| 0 <= i < p.len() - 1 ==> adjacent(edges, #[trigger] p[i], p[i + 1])
}

/// `b` can be reached from `a` by a walk inside `s`.
pub open spec fn reachable(edges: Seq<[usize; 2]>, s: Seq<usize>, a: usize, b: usize) -> bool {
    exists|p: Seq<usize>| #[trigger] is_walk(edges, s, p) && p.first() == a && p.last() == b
}

/// `s` is non-empty and each of its members reaches every other inside `s`.
pub open spec fn connected(edges: Seq<[usize; 2]>, s: Seq<usize>) -> bool {
    &&& s.len() > 0
    &&& forall|i: int, j: int|
        0 <= i < s.len() && 0 <= j < s.len() ==> reachable(edges, s, #[trigger] s[i], #[trigger] s[j])
}

/// Being joined by an edge does not depend on the order of the two vertices.
pub proof fn lemma_adjacent_sym(edges: Seq<[usize; 2]>, a: usize, b: usize)
    requires
        adjacent(edges, a, b),
    ensures
        adjacent(edges, b, a),
{
    let k = choose|k: int|
        0 <= k < edges.len() && ((#[trigger] edges[k])[0] == a && edges[k][1] == b || edges[k][0]
            == b && edges[k][1] == a);
    assert(edges[k][0] == b && edges[k][1] == a || edges[k][0] == a && edges[k][1] == b);
}

/// Every member of a subset reaches itself.
pub proof fn lemma_reach_refl(edges: Seq<[usize; 2]>, s: Seq<usize>, a: usize)
    requires
        s.contains(a),
    ensures
        reachable(edges, s, a, a),
{
    let p = seq![a];
    assert(is_walk(edges, s, p));
}

/// No empty subset is connected.
pub proof fn lemma_empty_not_connected(edges: Seq<[usize; 2]>)
    ensures
        !connected(edges, Seq::<usize>::empty()),
{
}

/// A single vertex is connected, whatever the edges.
pub proof fn lemma_single_connected(edges: Seq<[usize; 2]>, v: usize)
    ensures
        connected(edges, seq![v]),
{
    let s = seq![v];
    assert(s[0] == v);
    assert(s.contains(v));
    lemma_reach_refl(edges, s, v);
}

/// A walk can be prolonged by one edge at its end.
pub proof fn lemma_reach_step(edges: Seq<[usize; 2]>, s: Seq<usize>, a: usize, b: usize, c: usize)
    requires
        reachable(edges, s, a, b),
        adjacent(edges, b, c),
        s.contains(c),
    ensures
        reachable(edges, s, a, c),
{
    let p = choose|p: Seq<usize>| #[trigger]
        is_walk(edges, s, p) && p.first() == a && p.last() == b;
    let q = p.push(c);
    assert forall|i: int| 0 <= i < q.len() implies s.contains(#[trigger] q[i]) by {
        if i < p.len() {
            assert(q[i] == p[i]);
        }
    }
    assert forall|i: int| 0 <= i < q.len() - 1 implies adjacent(edges, #[trigger] q[i], q[i + 1]) by {
        if i < p.len() - 1 {
            assert(q[i] == p[i] && q[i + 1] == p[i + 1]);
        }
    }
    assert(is_walk(edges, s, q));
}

/// A walk can be prolonged by one edge at its start.
pub proof fn lemma_reach_prepend(
    edges: Seq<[usize; 2]>,
    s: Seq<usize>,
    c: usize,
    a: usize,
    b: usize,
)
    requires
        reachable(edges, s, a, b),
        adjacent(edges, c, a),
        s.contains(c),
    ensures
        reachable(edges, s, c, b),
{
    let p = choose|p: Seq<usize>| #[trigger]
        is_walk(edges, s, p) && p.first() == a && p.last() == b;
    let q = seq![c] + p;
    assert forall|i: int| 0 <= i < q.len() implies s.contains(#[trigger] q[i]) by {
        if i > 0 {
            assert(q[i] == p[i - 1]);
        }
    }
    assert forall|i: int| 0 <= i < q.len() - 1 implies adjacent(edges, #[trigger] q[i], q[i + 1]) by {
        if i > 0 {
            assert(q[i] == p[i - 1] && q[i + 1] == p[i]);
        } else {
            assert(q[1] == p[0]);
        }
    }
    assert(is_walk(edges, s, q));
    assert(q.last() == p.last());
}

proof fn lemma_walk_back(edges: Seq<[usize; 2]>, s: Seq<usize>, p: Seq<usize>, i: int)
    requires
        is_walk(edges, s, p),
        0 <= i < p.len(),
    ensures
        reachable(edges, s, p[i], p[0]),
    decreases i,
{
    if i == 0 {
        lemma_reach_refl(edges, s, p[0]);
    } else {
        lemma_walk_back(edges, s, p, i - 1);
        assert(adjacent(edges, p[i - 1], p[i - 1 + 1]));
        lemma_adjacent_sym(edges, p[i - 1], p[i]);
        lemma_reach_prepend(edges, s, p[i], p[i - 1], p[0]);
    }
}

proof fn lemma_walk_on(edges: Seq<[usize; 2]>, s: Seq<usize>, a: usize, p: Seq<usize>, i: int)
    requires
        is_walk(edges, s, p),
        reachable(edges, s, a, p[0]),
        0 <= i < p.len(),
    ensures
        reachable(edges, s, a, p[i]),
    decreases i,
{
    if i > 0 {
        lemma_walk_on(edges, s, a, p, i - 1);
        assert(adjacent(edges, p[i - 1], p[i - 1 + 1]));
        lemma_reach_step(edges, s, a, p[i - 1], p[i]);
    }
}

/// Reachability inside a subset is symmetric.
pub proof fn lemma_reach_sym(edges: Seq<[usize; 2]>, s: Seq<usize>, a: usize, b: usize)
    requires
        reachable(edges, s, a, b),
    ensures
        reachable(edges, s, b, a),
{
    let p = choose|p: Seq<usize>| #[trigger]
        is_walk(edges, s, p) && p.first() == a && p.last() == b;
    lemma_walk_back(edges, s, p, p.len() - 1);
}

/// Reachability inside a subset is transitive.
pub proof fn lemma_reach_trans(
    edges: Seq<[usize; 2]>,
    s: Seq<usize>,
    a: usize,
    b: usize,
    c: usize,
)
    requires
        reachable(edges, s, a, b),
        reachable(edges, s, b, c),
    ensures
        reachable(edges, s, a, c),
{
    let p = choose|p: Seq<usize>| #[trigger]
        is_walk(edges, s, p) && p.first() == b && p.last() == c;
    lemma_walk_on(edges, s, a, p, p.len() - 1);
}

/// A subset is connected as soon as its first member reaches all the others.
pub proof fn lemma_connected_from_first(edges: Seq<[usize; 2]>, s: Seq<usize>)
    requires
        s.len() > 0,
        forall|i: int| 0 <= i < s.len() ==> reachable(edges, s, s[0], #[trigger] s[i]),
    ensures
        connected(edges, s),
{
    assert forall|i: int, j: int| 0 <= i < s.len() && 0 <= j < s.len() implies reachable(
        edges,
        s,
        #[trigger] s[i],
        #[trigger] s[j],
    ) by {
        lemma_reach_sym(edges, s, s[0], s[i]);
        lemma_reach_trans(edges, s, s[i], s[0], s[j]);
    }
}

/// A set of vertices that holds the start of a walk and is closed under the
/// edges inside `s` holds the whole walk.
pub proof fn lemma_closed_holds_walk(
    edges: Seq<[usize; 2]>,
    s: Seq<usize>,
    found: Seq<usize>,
    p: Seq<usize>,
    i: int,
)
    requires
        is_walk(edges, s, p),
        found.contains(p[0]),
        forall|k: int, w: usize|
            0 <= k < found.len() && s.contains(w) && #[trigger] adjacent(edges, found[k], w)
                ==> found.contains(w),
        0 <= i < p.len(),
    ensures
        found.contains(p[i]),
    decreases i,
{
    if i > 0 {
        lemma_closed_holds_walk(edges, s, found, p, i - 1);
        let k = choose|k: int| 0 <= k < found.len() && found[k] == p[i - 1];
        assert(adjacent(edges, p[i - 1], p[i - 1 + 1]));
        assert(adjacent(edges, found[k], p[i]));
        assert(s.contains(p[i]));
    }
}

/// `found` holds the first member of `s`, only vertices that the first
/// member reaches inside `s`, and with a vertex all its neighbours in `s`.
#[verifier::opaque]
pub open spec fn explored(edges: Seq<[usize; 2]>, s: Seq<usize>, found: Seq<usize>) -> bool {
    &&& found.len() > 0
    &&& s.len() > 0
    &&& found[0] == s[0]
    &&& forall|q: int| 0 <= q < found.len() ==> reachable(edges, s, s[0], #[trigger] found[q])
    &&& forall|q: int, w: usize|
        0 <= q < found.len() && s.contains(w) && #[trigger] adjacent(edges, found[q], w)
            ==> found.contains(w)
}

/// Where an explored set misses a member of `s`, `s` is not connected.
pub proof fn lemma_unreached_disconnects(
    edges: Seq<[usize; 2]>,
    s: Seq<usize>,
    found: Seq<usize>,
    k: int,
)
    requires
        explored(edges, s, found),
        0 <= k < s.len(),
        !found.contains(s[k]),
    ensures
        !connected(edges, s),
{
    reveal(explored);
    if connected(edges, s) {
        assert(reachable(edges, s, s[0], s[k]));
        let p = choose|p: Seq<usize>| #[trigger]
            is_walk(edges, s, p) && p.first() == s[0] && p.last() == s[k];
        assert(found[0] == p[0]);
        lemma_closed_holds_walk(edges, s, found, p, p.len() - 1);
    }
}

/// Where an explored set holds every member of `s`, `s` is connected.
pub proof fn lemma_all_reached_connects(edges: Seq<[usize; 2]>, s: Seq<usize>, found: Seq<usize>)
    requires
        explored(edges, s, found),
        forall|m: int| 0 <= m < s.len() ==> found.contains(#[trigger] s[m]),
    ensures
        connected(edges, s),
{
    reveal(explored);
    assert forall|m: int| 0 <= m < s.len() implies reachable(edges, s, s[0], #[trigger] s[m]) by {
        let q = choose|q: int| 0 <= q < found.len() && found[q] == s[m];
        assert(reachable(edges, s, s[0], found[q]));
    }
    lemma_connected_from_first(edges, s);
}

/// Whether a subset is connected depends on its members only, not on their
/// order or on repetitions.
pub proof fn lemma_connected_reorder(edges: Seq<[usize; 2]>, s: Seq<usize>, t: Seq<usize>)
    requires
        forall|x: usize| s.contains(x) <==> t.contains(x),
    ensures
        connected(edges, s) == connected(edges, t),
{
    if connected(edges, s) {
        lemma_connected_one_way(edges, s, t);
    }
    if connected(edges, t) {
        lemma_connected_one_way(edges, t, s);
    }
}

proof fn lemma_connected_one_way(edges: Seq<[usize; 2]>, s: Seq<usize>, t: Seq<usize>)
    requires
        forall|x: usize| s.contains(x) <==> t.contains(x),
        connected(edges, s),
    ensures
        connected(edges, t),
{
    assert(s.contains(s[0]));
    assert(t.len() > 0);
    assert forall|i: int, j: int| 0 <= i < t.len() && 0 <= j < t.len() implies reachable(
        edges,
        t,
        #[trigger] t[i],
        #[trigger] t[j],
    ) by {
        assert(t.contains(t[i]) && t.contains(t[j]));
        let a = choose|a: int| 0 <= a < s.len() && s[a] == t[i];
        let b = choose|b: int| 0 <= b < s.len() && s[b] == t[j];
        assert(reachable(edges, s, s[a], s[b]));
        let p = choose|p: Seq<usize>| #[trigger]
            is_walk(edges, s, p) && p.first() == s[a] && p.last() == s[b];
        assert(is_walk(edges, t, p));
    }
}

/// A list without repetitions, all of whose items occur in a second list,
/// is no longer than the second.
pub proof fn lemma_distinct_bound<A>(a: Seq<A>, b: Seq<A>)
    requires
        a.no_duplicates(),
        forall|i: int| 0 <= i < a.len() ==> b.contains(#[trigger] a[i]),
    ensures
        a.len() <= b.len(),
{
    a.unique_seq_to_set();
    b.lemma_cardinality_of_set();
    seq_to_set_is_finite(b);
    assert(a.to_set().subset_of(b.to_set())) by {
        assert forall|x: A| a.to_set().contains(x) implies b.to_set().contains(x) by {
            assert(a.contains(x));
        }
    }
    lemma_len_subset(a.to_set(), b.to_set());
}

} // verus!
