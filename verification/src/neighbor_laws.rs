//! What the neighbour test says about the tube sets of two tubings.

use vstd::prelude::*;
use vstd::seq_lib::seq_to_set_is_finite;
use vstd::set_lib::{lemma_set_difference_len, lemma_set_intersect_union_lens};
use crate::flip::{
    absent_count, neighbor_indices, neighbors, lemma_neighbor_indices_below, Flipgraph,
};

verus! {

/// The tubes among the first `n` of `a` that do not occur in `b`.
pub open spec fn missing(a: Seq<Seq<usize>>, b: Seq<Seq<usize>>, n: int) -> Set<Seq<usize>> {
    Set::new(|t: Seq<usize>| exists|i: int| 0 <= i < n && (#[trigger] a[i]) == t && !b.contains(t))
}

/// The tubes that one of two tubings has and the other has not.
pub open spec fn symmetric_difference(a: Seq<Seq<usize>>, b: Seq<Seq<usize>>) -> Set<Seq<usize>> {
    a.to_set().difference(b.to_set()).union(b.to_set().difference(a.to_set()))
}

proof fn lemma_missing_len(a: Seq<Seq<usize>>, b: Seq<Seq<usize>>, n: int)
    requires
        a.no_duplicates(),
        0 <= n <= a.len(),
    ensures
        missing(a, b, n).finite(),
        missing(a, b, n).len() == absent_count(a, b, n),
    decreases n,
{
    if n == 0 {
        assert(missing(a, b, 0) =~= Set::<Seq<usize>>::empty());
    } else {
        lemma_missing_len(a, b, n - 1);
        let prev = missing(a, b, n - 1);
        let last = a[n - 1];
        if b.contains(last) {
            assert(missing(a, b, n) =~= prev);
        } else {
            assert(missing(a, b, n) =~= prev.insert(last));
            assert(!prev.contains(last));
        }
    }
}

/// Of a tubing without repeated tubes, the number of tubes that are
/// missing from another is the size of the difference of their tube sets.
pub proof fn lemma_absent_count_is_difference(a: Seq<Seq<usize>>, b: Seq<Seq<usize>>)
    requires
        a.no_duplicates(),
    ensures
        a.to_set().difference(b.to_set()).finite(),
        a.to_set().difference(b.to_set()).len() == absent_count(a, b, a.len() as int),
{
    lemma_missing_len(a, b, a.len() as int);
    assert(missing(a, b, a.len() as int) =~= a.to_set().difference(b.to_set())) by {
        assert forall|t: Seq<usize>| missing(a, b, a.len() as int).contains(t) <==> a.to_set().contains(
            t,
        ) && !b.to_set().contains(t) by {
            if a.contains(t) && !b.contains(t) {
                let i = choose|i: int| 0 <= i < a.len() && a[i] == t;
                assert(a[i] == t);
            }
        }
    }
}

/// Two tubings of equal size, neither with a repeated tube, are neighbours
/// exactly when two tubes lie in one of them only: then each has one tube
/// that the other lacks, and the relation holds both ways.
pub proof fn lemma_neighbors_by_difference(a: Seq<Seq<usize>>, b: Seq<Seq<usize>>)
    requires
        a.no_duplicates(),
        b.no_duplicates(),
        a.len() == b.len(),
    ensures
        neighbors(a, b) <==> symmetric_difference(a, b).len() == 2,
        neighbors(a, b) ==> a.to_set().difference(b.to_set()).len() == 1 && b.to_set().difference(
            a.to_set(),
        ).len() == 1,
        neighbors(a, b) == neighbors(b, a),
{
    let sa = a.to_set();
    let sb = b.to_set();
    let ab = sa.difference(sb);
    let ba = sb.difference(sa);
    seq_to_set_is_finite(a);
    seq_to_set_is_finite(b);
    a.unique_seq_to_set();
    b.unique_seq_to_set();
    lemma_absent_count_is_difference(a, b);
    lemma_absent_count_is_difference(b, a);
    lemma_set_difference_len(sa, sb);
    lemma_set_difference_len(sb, sa);
    assert(sa.intersect(sb) =~= sb.intersect(sa));
    assert(ab.len() == ba.len());
    assert(ab.intersect(ba) =~= Set::<Seq<usize>>::empty());
    lemma_set_intersect_union_lens(ab, ba);
    assert(symmetric_difference(a, b).len() == ab.len() + ba.len());
}

/// A position is listed among the neighbours below `n` of a tubing exactly
/// when it is below `n` and the tubing there is a neighbour.
pub proof fn lemma_neighbor_indices_hold(
    vs: Seq<Seq<Seq<usize>>>,
    t: Seq<Seq<usize>>,
    n: int,
    j: usize,
)
    requires
        0 <= n <= usize::MAX,
    ensures
        neighbor_indices(vs, t, n).contains(j) <==> j < n && neighbors(t, vs[j as int]),
    decreases n,
{
    if n > 0 {
        lemma_neighbor_indices_hold(vs, t, n - 1, j);
        lemma_neighbor_indices_below(vs, t, n - 1);
        let prev = neighbor_indices(vs, t, n - 1);
        let now = neighbor_indices(vs, t, n);
        if neighbors(t, vs[n - 1]) {
            if prev.contains(j) {
                let q = choose|q: int| 0 <= q < prev.len() && prev[q] == j;
                assert(now[q] == j);
            }
            if j == n - 1 {
                assert(now[now.len() - 1] == j);
            }
            if now.contains(j) {
                let q = choose|q: int| 0 <= q < now.len() && now[q] == j;
                if q < prev.len() {
                    assert(prev[q] == j);
                }
            }
        }
    }
}

/// The flip graph is undirected: of two of its tubings with equally many
/// tubes, none of them twice, each lists the other as a neighbour or
/// neither does.
pub proof fn lemma_flip_graph_undirected(fg: Flipgraph, i: usize, j: usize)
    requires
        fg.wf(),
        i < fg.vertices@.len(),
        j < fg.vertices@.len(),
        fg.tubings()[i as int].no_duplicates(),
        fg.tubings()[j as int].no_duplicates(),
        fg.tubings()[i as int].len() == fg.tubings()[j as int].len(),
    ensures
        fg.neighboorlist@[i as int]@.contains(j) <==> fg.neighboorlist@[j as int]@.contains(i),
        fg.neighboorlist@[i as int]@.contains(j) <==> neighbors(
            fg.tubings()[i as int],
            fg.tubings()[j as int],
        ),
{
    let vs = fg.tubings();
    let n = fg.vertices@.len() as int;
    assert(fg.vertices.len() == fg.vertices@.len());
    lemma_neighbor_indices_hold(vs, vs[i as int], n, j);
    lemma_neighbor_indices_hold(vs, vs[j as int], n, i);
    lemma_neighbors_by_difference(vs[i as int], vs[j as int]);
}

} // verus!
