//! The tubes of a graph.

use vstd::prelude::*;
use crate::graph::Graph;
use crate::outside::sort_vertices;
use crate::parts::{
    ascending, is_combination, is_proper_part, is_selection, pick, sorted_form_of, subsets,
    lemma_sorted_form_members, lemma_sorted_form_unique,
};
use crate::reach::{connected, lemma_connected_reorder, lemma_distinct_bound};
use crate::tube::{contains_tube, tubes_of};

verus! {

/// `c` is a tube: the sorted form of a connected part of the vertex list
/// that is not the whole list.
pub open spec fn is_tube(vertices: Seq<usize>, edges: Seq<[usize; 2]>, c: Seq<usize>) -> bool {
    exists|p: Seq<usize>|
        is_proper_part(vertices, p) && connected(edges, p) && #[trigger] sorted_form_of(p, c)
}

/// `list` holds each tube of the graph once, and nothing else.
pub open spec fn is_tube_list(
    vertices: Seq<usize>,
    edges: Seq<[usize; 2]>,
    list: Seq<Seq<usize>>,
) -> bool {
    &&& list.no_duplicates()
    &&& forall|c: Seq<usize>| list.contains(c) <==> is_tube(vertices, edges, c)
}

/// `c` is the sorted form of a connected one among the first `j` of `parts`.
pub open spec fn tube_among(
    edges: Seq<[usize; 2]>,
    parts: Seq<Seq<usize>>,
    j: int,
    c: Seq<usize>,
) -> bool {
    exists|m: int|
        0 <= m < j && m < parts.len() && connected(edges, parts[m]) && #[trigger] sorted_form_of(
            parts[m],
            c,
        )
}

/// Every tube is non-empty and connected, is in rising order, holds
/// vertices of the graph only, and fewer than the graph has.
pub proof fn lemma_tube_connected(vertices: Seq<usize>, edges: Seq<[usize; 2]>, c: Seq<usize>)
    requires
        is_tube(vertices, edges, c),
    ensures
        c.len() > 0,
        c.len() < vertices.len(),
        connected(edges, c),
        ascending(c),
        forall|i: int| 0 <= i < c.len() ==> vertices.contains(#[trigger] c[i]),
{
    broadcast use vstd::seq_lib::group_to_multiset_ensures;

    let p = choose|p: Seq<usize>|
        is_proper_part(vertices, p) && connected(edges, p) && #[trigger] sorted_form_of(p, c);
    lemma_sorted_form_members(p, c);
    lemma_connected_reorder(edges, p, c);
    let k = choose|k: nat| k < vertices.len() && #[trigger] is_combination(vertices, k, p);
    let idx = choose|idx: Seq<int>|
        is_selection(idx, vertices.len()) && idx.len() == k && p == #[trigger] pick(vertices, idx);
    assert(c.len() == p.len()) by {
        assert(c.to_multiset().len() == p.to_multiset().len());
    }
    assert forall|i: int| 0 <= i < c.len() implies vertices.contains(#[trigger] c[i]) by {
        assert(c.contains(c[i]));
        assert(p.contains(c[i]));
        let q = choose|q: int| 0 <= q < p.len() && p[q] == c[i];
        assert(p[q] == vertices[idx[q]]);
    }
}

/// The positions below `n` of the vertices that occur in `c`, rising.
pub open spec fn positions(vertices: Seq<usize>, c: Seq<usize>, n: int) -> Seq<int>
    decreases n,
{
    if n <= 0 {
        Seq::empty()
    } else if c.contains(vertices[n - 1]) {
        positions(vertices, c, n - 1).push(n - 1)
    } else {
        positions(vertices, c, n - 1)
    }
}

proof fn lemma_positions(vertices: Seq<usize>, c: Seq<usize>, n: int)
    requires
        0 <= n <= vertices.len(),
    ensures
        is_selection(positions(vertices, c, n), vertices.len()),
        forall|i: int|
            0 <= i < positions(vertices, c, n).len() ==> #[trigger] positions(vertices, c, n)[i] < n
                && c.contains(vertices[positions(vertices, c, n)[i]]),
        forall|m: int|
            0 <= m < n && c.contains(#[trigger] vertices[m]) ==> positions(vertices, c, n).contains(
                m,
            ),
    decreases n,
{
    if n > 0 {
        lemma_positions(vertices, c, n - 1);
        let prev = positions(vertices, c, n - 1);
        let now = positions(vertices, c, n);
        assert forall|m: int| 0 <= m < n && c.contains(#[trigger] vertices[m]) implies now.contains(
            m,
        ) by {
            if m < n - 1 {
                let q = choose|q: int| 0 <= q < prev.len() && prev[q] == m;
                assert(now[q] == m);
            } else {
                assert(now[now.len() - 1] == m);
            }
        }
    }
}

/// Two lists without repetitions that hold the same items hold each as
/// often as the other.
pub proof fn lemma_same_members_same_multiset(p: Seq<usize>, c: Seq<usize>)
    requires
        p.no_duplicates(),
        c.no_duplicates(),
        forall|x: usize| p.contains(x) <==> c.contains(x),
    ensures
        p.to_multiset() == c.to_multiset(),
{
    broadcast use vstd::seq_lib::group_to_multiset_ensures;

    p.lemma_multiset_has_no_duplicates();
    c.lemma_multiset_has_no_duplicates();
    assert forall|x: usize| p.to_multiset().count(x) == c.to_multiset().count(x) by {
        assert(p.contains(x) <==> p.to_multiset().count(x) > 0);
        assert(c.contains(x) <==> c.to_multiset().count(x) > 0);
    }
    assert(p.to_multiset() =~= c.to_multiset());
}

/// In a graph whose vertex list names no vertex twice, every connected
/// list of some but not all of its vertices, in rising order and without
/// repetitions, is a tube.
pub proof fn lemma_connected_subset_is_tube(
    vertices: Seq<usize>,
    edges: Seq<[usize; 2]>,
    c: Seq<usize>,
)
    requires
        vertices.no_duplicates(),
        c.no_duplicates(),
        ascending(c),
        connected(edges, c),
        c.len() < vertices.len(),
        forall|i: int| 0 <= i < c.len() ==> vertices.contains(#[trigger] c[i]),
    ensures
        is_tube(vertices, edges, c),
{
    let n = vertices.len() as int;
    let idx = positions(vertices, c, n);
    lemma_positions(vertices, c, n);
    let p = pick(vertices, idx);
    assert(p.no_duplicates()) by {
        assert forall|i: int, j: int| 0 <= i < p.len() && 0 <= j < p.len() && i != j implies p[i]
            != p[j] by {
            assert(p[i] == vertices[idx[i]] && p[j] == vertices[idx[j]]);
            if i < j {
                assert(idx[i] < idx[j]);
            } else {
                assert(idx[j] < idx[i]);
            }
        }
    }
    assert forall|x: usize| p.contains(x) <==> c.contains(x) by {
        if p.contains(x) {
            let q = choose|q: int| 0 <= q < p.len() && p[q] == x;
            assert(p[q] == vertices[idx[q]]);
        }
        if c.contains(x) {
            let i = choose|i: int| 0 <= i < c.len() && c[i] == x;
            assert(vertices.contains(c[i]));
            let m = choose|m: int| 0 <= m < vertices.len() && vertices[m] == x;
            assert(c.contains(vertices[m]));
            assert(idx.contains(m));
            let q = choose|q: int| 0 <= q < idx.len() && idx[q] == m;
            assert(p[q] == x);
        }
    }
    lemma_same_members_same_multiset(p, c);
    assert(p.len() == c.len()) by {
        lemma_distinct_bound(p, c);
        lemma_distinct_bound(c, p);
    }
    assert(is_combination(vertices, p.len(), p));
    assert(is_proper_part(vertices, p));
    lemma_connected_reorder(edges, c, p);
    assert(sorted_form_of(p, c));
}

/// A copy of a tube.
pub fn copy_tube(tube: &Vec<usize>) -> (r: Vec<usize>)
    ensures
        r@ == tube@,
{
    let mut r: Vec<usize> = Vec::new();
    let mut i: usize = 0;
    while i < tube.len()
        invariant
            i <= tube.len(),
            r@ == tube@.take(i as int),
        decreases tube.len() - i,
    {
        r.push(tube[i]);
        assert(tube@.take(i as int).push(tube@[i as int]) =~= tube@.take(i + 1));
        i += 1;
    }
    assert(tube@.take(tube@.len() as int) =~= tube@);
    r
}

/// Adds `tube` to `list` unless it is there.
pub fn insert_tube(list: &mut Vec<Vec<usize>>, tube: Vec<usize>)
    ensures
        tubes_of(final(list)@) == if tubes_of(old(list)@).contains(tube@) {
            tubes_of(old(list)@)
        } else {
            tubes_of(old(list)@).push(tube@)
        },
        tubes_of(old(list)@).no_duplicates() ==> tubes_of(final(list)@).no_duplicates(),
{
    if !contains_tube(list, &tube) {
        let ghost before = tubes_of(list@);
        list.push(tube);
        assert(tubes_of(list@) =~= before.push(tube@));
    }
}

impl Graph {
    /// Finds the tubes of the graph, unless they were found before.
    pub fn find_tubes(&mut self)
        ensures
            final(self).vertices == old(self).vertices,
            final(self).edges == old(self).edges,
            final(self).tubings == old(self).tubings,
            old(self).tubes is Some ==> final(self).tubes == old(self).tubes,
            old(self).tubes is None ==> final(self).tubes is Some && is_tube_list(
                old(self).vertices@,
                old(self).edges@,
                tubes_of(final(self).tubes.unwrap()@),
            ),
    {
        if self.tubes.is_some() {
            return ;
        }
        let parts = subsets(&self.vertices);
        let ghost edges = self.edges@;
        let ghost vertices = self.vertices@;
        let ghost ps = tubes_of(parts@);
        let mut tubes: Vec<Vec<usize>> = Vec::new();
        let mut j: usize = 0;
        while j < parts.len()
            invariant
                j <= parts.len(),
                edges == self.edges@,
                ps == tubes_of(parts@),
                tubes_of(tubes@).no_duplicates(),
                forall|c: Seq<usize>|
                    tubes_of(tubes@).contains(c) <==> tube_among(edges, ps, j as int, c),
            decreases parts.len() - j,
        {
            let ghost before = tubes_of(tubes@);
            let ghost p = ps[j as int];
            assert(p == parts@[j as int]@);
            let joined = self.is_connected(&parts[j]);
            if joined {
                let mut t = copy_tube(&parts[j]);
                sort_vertices(&mut t);
                assert(sorted_form_of(p, t@));
                insert_tube(&mut tubes, t);
                proof {
                    let after = tubes_of(tubes@);
                    assert forall|c: Seq<usize>| after.contains(c) <==> tube_among(
                        edges,
                        ps,
                        j + 1,
                        c,
                    ) by {
                        if after.contains(c) {
                            if before.contains(c) {
                                let m = choose|m: int|
                                    0 <= m < j && m < ps.len() && connected(edges, ps[m])
                                        && #[trigger] sorted_form_of(ps[m], c);
                                assert(m < j + 1);
                            } else {
                                assert(c == t@);
                                assert(sorted_form_of(ps[j as int], c));
                            }
                        }
                        if tube_among(edges, ps, j + 1, c) {
                            let m = choose|m: int|
                                0 <= m < j + 1 && m < ps.len() && connected(edges, ps[m])
                                    && #[trigger] sorted_form_of(ps[m], c);
                            if m < j {
                                assert(tube_among(edges, ps, j as int, c));
                                assert(before.contains(c));
                                let i = choose|i: int| 0 <= i < before.len() && before[i] == c;
                                assert(after[i] == c);
                            } else {
                                lemma_sorted_form_unique(p, c, t@);
                                if !before.contains(t@) {
                                    assert(after[after.len() - 1] == t@);
                                } else {
                                    assert(after == before);
                                }
                            }
                        }
                    }
                }
            } else {
                proof {
                    assert forall|c: Seq<usize>| before.contains(c) <==> tube_among(
                        edges,
                        ps,
                        j + 1,
                        c,
                    ) by {
                        if before.contains(c) {
                            let m = choose|m: int|
                                0 <= m < j && m < ps.len() && connected(edges, ps[m])
                                    && #[trigger] sorted_form_of(ps[m], c);
                            assert(m < j + 1);
                        }
                        if tube_among(edges, ps, j + 1, c) {
                            let m = choose|m: int|
                                0 <= m < j + 1 && m < ps.len() && connected(edges, ps[m])
                                    && #[trigger] sorted_form_of(ps[m], c);
                            assert(m < j);
                            assert(tube_among(edges, ps, j as int, c));
                        }
                    }
                }
            }
            j += 1;
        }
        proof {
            let list = tubes_of(tubes@);
            assert forall|c: Seq<usize>| list.contains(c) <==> is_tube(vertices, edges, c) by {
                if list.contains(c) {
                    let m = choose|m: int|
                        0 <= m < j && m < ps.len() && connected(edges, ps[m])
                            && #[trigger] sorted_form_of(ps[m], c);
                    assert(ps.contains(ps[m]));
                    assert(is_proper_part(vertices, ps[m]));
                }
                if is_tube(vertices, edges, c) {
                    let p = choose|p: Seq<usize>|
                        is_proper_part(vertices, p) && connected(edges, p)
                            && #[trigger] sorted_form_of(p, c);
                    assert(ps.contains(p));
                    let m = choose|m: int| 0 <= m < ps.len() && ps[m] == p;
                    assert(sorted_form_of(ps[m], c));
                    assert(tube_among(edges, ps, j as int, c));
                }
            }
        }
        self.tubes = Some(tubes);
    }
}

} // verus!
