//! The graph and its connectivity test.

use vstd::prelude::*;
use crate::reach::{
    adjacent, connected, explored, reachable, lemma_all_reached_connects,
    lemma_connected_from_first, lemma_unreached_disconnects,
    lemma_distinct_bound, lemma_reach_refl, lemma_reach_step,
};

verus! {

/// A finite undirected graph, with the tubes and tubings found so far.
pub struct Graph {
    pub vertices: Vec<usize>,
    pub edges: Vec<[usize; 2]>,
    pub tubes: Option<Vec<Vec<usize>>>,
    pub tubings: Option<Vec<Vec<Vec<usize>>>>,
}

/// Whether `x` occurs in `v`.
pub fn contains_vertex(v: &Vec<usize>, x: usize) -> (r: bool)
    ensures
        r == v@.contains(x),
{
    let mut i: usize = 0;
    while i < v.len()
        invariant
            i <= v.len(),
            forall|k: int| 0 <= k < i ==> v@[k] != x,
        decreases v.len() - i,
    {
        if v[i] == x {
            return true;
        }
        i += 1;
    }
    false
}

/// The end points of the first `n` edges, each where it first occurs.
pub open spec fn first_seen(edges: Seq<[usize; 2]>, n: int) -> Seq<usize>
    decreases n,
{
    if n <= 0 {
        Seq::empty()
    } else {
        let before = first_seen(edges, n - 1);
        let a = edges[n - 1][0];
        let b = edges[n - 1][1];
        let with_a = if before.contains(a) {
            before
        } else {
            before.push(a)
        };
        if with_a.contains(b) {
            with_a
        } else {
            with_a.push(b)
        }
    }
}

/// `v` is an end point of one of the first `n` edges.
pub open spec fn is_end_point(edges: Seq<[usize; 2]>, n: int, v: usize) -> bool {
    exists|k: int| 0 <= k < n && k < edges.len() && ((#[trigger] edges[k])[0] == v || edges[k][1] == v)
}

/// The list of first occurrences names each end point once, and nothing
/// else.
pub proof fn lemma_first_seen(edges: Seq<[usize; 2]>, n: int)
    requires
        0 <= n <= edges.len(),
    ensures
        first_seen(edges, n).no_duplicates(),
        forall|v: usize| first_seen(edges, n).contains(v) <==> is_end_point(edges, n, v),
    decreases n,
{
    if n > 0 {
        lemma_first_seen(edges, n - 1);
        let before = first_seen(edges, n - 1);
        let a = edges[n - 1][0];
        let b = edges[n - 1][1];
        let with_a = if before.contains(a) {
            before
        } else {
            before.push(a)
        };
        let now = first_seen(edges, n);
        assert forall|v: usize| with_a.contains(v) <==> before.contains(v) || v == a by {
            if before.contains(v) {
                let q = choose|q: int| 0 <= q < before.len() && before[q] == v;
                assert(with_a[q] == v);
            }
            if v == a && !before.contains(a) {
                assert(with_a[with_a.len() - 1] == a);
            }
        }
        assert forall|v: usize| now.contains(v) <==> with_a.contains(v) || v == b by {
            if with_a.contains(v) {
                let q = choose|q: int| 0 <= q < with_a.len() && with_a[q] == v;
                assert(now[q] == v);
            }
            if v == b && !with_a.contains(b) {
                assert(now[now.len() - 1] == b);
            }
        }
        assert forall|v: usize| now.contains(v) <==> is_end_point(edges, n, v) by {
            if is_end_point(edges, n, v) {
                let k = choose|k: int|
                    0 <= k < n && k < edges.len() && ((#[trigger] edges[k])[0] == v || edges[k][1]
                        == v);
                if k < n - 1 {
                    assert(is_end_point(edges, n - 1, v));
                }
            }
            if before.contains(v) {
                assert(is_end_point(edges, n - 1, v));
                let k = choose|k: int|
                    0 <= k < n - 1 && k < edges.len() && ((#[trigger] edges[k])[0] == v
                        || edges[k][1] == v);
                assert(0 <= k < n && (edges[k][0] == v || edges[k][1] == v));
            }
            if v == a || v == b {
                assert(edges[n - 1][0] == v || edges[n - 1][1] == v);
            }
            if now.contains(v) {
                assert(with_a.contains(v) || v == b);
                assert(before.contains(v) || v == a || v == b);
            }
        }
    }
}

/// The vertices that the edges name, each once, in the order in which the
/// edges first name them.
pub fn vertices_of(edges: &Vec<[usize; 2]>) -> (vs: Vec<usize>)
    ensures
        vs@ == first_seen(edges@, edges@.len() as int),
        vs@.no_duplicates(),
        forall|v: usize| vs@.contains(v) <==> is_end_point(edges@, edges@.len() as int, v),
{
    let mut vertices: Vec<usize> = Vec::new();
    let mut k: usize = 0;
    while k < edges.len()
        invariant
            k <= edges.len(),
            vertices@ == first_seen(edges@, k as int),
        decreases edges.len() - k,
    {
        let e = edges[k];
        let a = e[0];
        let b = e[1];
        if !contains_vertex(&vertices, a) {
            vertices.push(a);
        }
        if !contains_vertex(&vertices, b) {
            vertices.push(b);
        }
        k += 1;
    }
    proof {
        lemma_first_seen(edges@, edges@.len() as int);
    }
    vertices
}

impl Graph {
    /// Whether the vertices listed induce a connected subgraph: false for an
    /// empty list, true for a single vertex.
    pub fn is_connected(&self, vertices: &Vec<usize>) -> (r: bool)
        ensures
            r == connected(self.edges@, vertices@),
    {
        if vertices.len() == 0 {
            return false;
        }
        let start = vertices[0];
        let ghost s = vertices@;
        let ghost edges = self.edges@;
        assert(s.contains(start));
        proof {
            lemma_reach_refl(edges, s, start);
        }
        if vertices.len() == 1 {
            proof {
                lemma_connected_from_first(edges, s);
            }
            return true;
        }
        let mut found: Vec<usize> = Vec::new();
        found.push(start);
        let mut i: usize = 0;
        while i < found.len()
            invariant
                s == vertices@,
                edges == self.edges@,
                i <= found.len(),
                found@.len() >= 1,
                found@[0] == start,
                found@.no_duplicates(),
                forall|k: int|
                    0 <= k < found@.len() ==> s.contains(#[trigger] found@[k]) && reachable(
                        edges,
                        s,
                        start,
                        found@[k],
                    ),
                forall|k: int, w: usize|
                    0 <= k < i && s.contains(w) && #[trigger] adjacent(edges, found@[k], w)
                        ==> found@.contains(w),
            decreases s.len() - i,
        {
            proof {
                lemma_distinct_bound(found@, s);
            }
            let v = found[i];
            let mut j: usize = 0;
            while j < self.edges.len()
                invariant
                    s == vertices@,
                    edges == self.edges@,
                    i < found.len(),
                    j <= edges.len(),
                    found@[i as int] == v,
                    found@[0] == start,
                    found@.no_duplicates(),
                    forall|k: int|
                        0 <= k < found@.len() ==> s.contains(#[trigger] found@[k]) && reachable(
                            edges,
                            s,
                            start,
                            found@[k],
                        ),
                    forall|k: int, w: usize|
                        0 <= k < i && s.contains(w) && #[trigger] adjacent(edges, found@[k], w)
                            ==> found@.contains(w),
                    forall|e: int|
                        0 <= e < j && (#[trigger] edges[e])[0] == v && s.contains(edges[e][1])
                            ==> found@.contains(edges[e][1]),
                    forall|e: int|
                        0 <= e < j && (#[trigger] edges[e])[1] == v && s.contains(edges[e][0])
                            ==> found@.contains(edges[e][0]),
                decreases edges.len() - j,
            {
                let e = self.edges[j];
                let a = e[0];
                let b = e[1];
                if a == v && !contains_vertex(&found, b) && contains_vertex(vertices, b) {
                    proof {
                        assert(edges[j as int][0] == v && edges[j as int][1] == b);
                        assert(adjacent(edges, v, b));
                        lemma_reach_step(edges, s, start, v, b);
                    }
                    let ghost before = found@;
                    found.push(b);
                    assert(forall|x: usize| before.contains(x) ==> found@.contains(x)) by {
                        assert forall|x: usize| before.contains(x) implies found@.contains(x) by {
                            let k = choose|k: int| 0 <= k < before.len() && before[k] == x;
                            assert(found@[k] == x);
                        }
                    }
                    assert(found@.contains(b)) by {
                        assert(found@[found@.len() - 1] == b);
                    }
                }
                if b == v && !contains_vertex(&found, a) && contains_vertex(vertices, a) {
                    proof {
                        assert(edges[j as int][0] == a && edges[j as int][1] == v);
                        assert(adjacent(edges, v, a));
                        lemma_reach_step(edges, s, start, v, a);
                    }
                    let ghost before = found@;
                    found.push(a);
                    assert(forall|x: usize| before.contains(x) ==> found@.contains(x)) by {
                        assert forall|x: usize| before.contains(x) implies found@.contains(x) by {
                            let k = choose|k: int| 0 <= k < before.len() && before[k] == x;
                            assert(found@[k] == x);
                        }
                    }
                    assert(found@.contains(a)) by {
                        assert(found@[found@.len() - 1] == a);
                    }
                }
                j += 1;
            }
            assert forall|w: usize| s.contains(w) && adjacent(edges, v, w) implies found@.contains(
                w,
            ) by {
                let k = choose|k: int|
                    0 <= k < edges.len() && ((#[trigger] edges[k])[0] == v && edges[k][1] == w
                        || edges[k][0] == w && edges[k][1] == v);
            }
            i += 1;
        }
        proof {
            assert(explored(edges, s, found@)) by {
                reveal(explored);
            }
        }
        let mut k: usize = 0;
        while k < vertices.len()
            invariant
                s == vertices@,
                edges == self.edges@,
                k <= s.len(),
                explored(edges, s, found@),
                forall|m: int| 0 <= m < k ==> found@.contains(#[trigger] s[m]),
            decreases s.len() - k,
        {
            if !contains_vertex(&found, vertices[k]) {
                proof {
                    lemma_unreached_disconnects(edges, s, found@, k as int);
                }
                return false;
            }
            k += 1;
        }
        proof {
            lemma_all_reached_connects(edges, s, found@);
        }
        true
    }
}

} // verus!
