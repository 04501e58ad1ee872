//! Tubes, lists of tubes, and the compatibility of two tubes.

use vstd::prelude::*;
use crate::graph::{contains_vertex, Graph};

verus! {

/// The tubes of a list, each as the sequence of its vertices.
pub open spec fn tubes_of(list: Seq<Vec<usize>>) -> Seq<Seq<usize>> {
    list.map_values(|t: Vec<usize>| t@)
}

/// Some edge joins a vertex of `a` to a vertex of `b`.
pub open spec fn linked(edges: Seq<[usize; 2]>, a: Seq<usize>, b: Seq<usize>) -> bool {
    exists|k: int|
        0 <= k < edges.len() && (a.contains((#[trigger] edges[k])[0]) && b.contains(edges[k][1])
            || a.contains(edges[k][1]) && b.contains(edges[k][0]))
}

/// Two tubes may stand in one tubing: they differ, and either one holds the
/// other or they share no vertex and no edge joins them.
pub open spec fn compatible(edges: Seq<[usize; 2]>, a: Seq<usize>, b: Seq<usize>) -> bool {
    let sa = a.to_set();
    let sb = b.to_set();
    if sa.subset_of(sb) && sb.subset_of(sa) {
        false
    } else if sa.subset_of(sb) || sb.subset_of(sa) {
        true
    } else {
        sa.disjoint(sb) && !linked(edges, a, b)
    }
}

/// Compatibility does not depend on the order of the two tubes.
pub proof fn lemma_compatible_symmetric(edges: Seq<[usize; 2]>, a: Seq<usize>, b: Seq<usize>)
    ensures
        compatible(edges, a, b) == compatible(edges, b, a),
{
    if linked(edges, a, b) {
        let k = choose|k: int|
            0 <= k < edges.len() && (a.contains((#[trigger] edges[k])[0]) && b.contains(
                edges[k][1],
            ) || a.contains(edges[k][1]) && b.contains(edges[k][0]));
        assert(b.contains(edges[k][0]) && a.contains(edges[k][1]) || b.contains(edges[k][1])
            && a.contains(edges[k][0]));
    }
    if linked(edges, b, a) {
        let k = choose|k: int|
            0 <= k < edges.len() && (b.contains((#[trigger] edges[k])[0]) && a.contains(
                edges[k][1],
            ) || b.contains(edges[k][1]) && a.contains(edges[k][0]));
        assert(a.contains(edges[k][0]) && b.contains(edges[k][1]) || a.contains(edges[k][1])
            && b.contains(edges[k][0]));
    }
}

/// Two tubes with the same vertices are never compatible.
pub proof fn lemma_equal_tubes_incompatible(edges: Seq<[usize; 2]>, a: Seq<usize>, b: Seq<usize>)
    requires
        a.to_set() == b.to_set(),
    ensures
        !compatible(edges, a, b),
{
}

/// Two different tubes of which one holds the other are compatible.
pub proof fn lemma_nested_tubes_compatible(edges: Seq<[usize; 2]>, a: Seq<usize>, b: Seq<usize>)
    requires
        a.to_set().subset_of(b.to_set()),
        a.to_set() != b.to_set(),
    ensures
        compatible(edges, a, b),
        compatible(edges, b, a),
{
    if b.to_set().subset_of(a.to_set()) {
        assert(a.to_set() =~= b.to_set());
    }
}

/// Whether two tubes list the same vertices in the same order.
pub fn tube_eq(a: &Vec<usize>, b: &Vec<usize>) -> (r: bool)
    ensures
        r == (a@ == b@),
{
    if a.len() != b.len() {
        return false;
    }
    let mut i: usize = 0;
    while i < a.len()
        invariant
            a.len() == b.len(),
            i <= a.len(),
            forall|k: int| 0 <= k < i ==> a@[k] == b@[k],
        decreases a.len() - i,
    {
        if a[i] != b[i] {
            return false;
        }
        i += 1;
    }
    assert(a@ =~= b@);
    true
}

/// Whether `tube` occurs in `list`.
pub fn contains_tube(list: &Vec<Vec<usize>>, tube: &Vec<usize>) -> (r: bool)
    ensures
        r == tubes_of(list@).contains(tube@),
{
    let mut i: usize = 0;
    while i < list.len()
        invariant
            i <= list.len(),
            forall|k: int| 0 <= k < i ==> tubes_of(list@)[k] != tube@,
        decreases list.len() - i,
    {
        if tube_eq(&list[i], tube) {
            assert(tubes_of(list@)[i as int] == tube@);
            return true;
        }
        i += 1;
    }
    false
}

/// Whether every vertex of `a` is a vertex of `b`.
pub fn is_subset(a: &Vec<usize>, b: &Vec<usize>) -> (r: bool)
    ensures
        r == a@.to_set().subset_of(b@.to_set()),
{
    let mut i: usize = 0;
    while i < a.len()
        invariant
            i <= a.len(),
            forall|k: int| 0 <= k < i ==> b@.contains(#[trigger] a@[k]),
        decreases a.len() - i,
    {
        if !contains_vertex(b, a[i]) {
            assert(a@.to_set().contains(a@[i as int])) by {
                assert(a@.contains(a@[i as int]));
            }
            return false;
        }
        i += 1;
    }
    assert forall|x: usize| a@.to_set().contains(x) implies b@.to_set().contains(x) by {
        assert(a@.contains(x));
        let k = choose|k: int| 0 <= k < a@.len() && a@[k] == x;
        assert(b@.contains(a@[k]));
    }
    true
}

/// Whether `a` and `b` share no vertex.
pub fn is_disjoint(a: &Vec<usize>, b: &Vec<usize>) -> (r: bool)
    ensures
        r == a@.to_set().disjoint(b@.to_set()),
{
    let mut i: usize = 0;
    while i < a.len()
        invariant
            i <= a.len(),
            forall|k: int| 0 <= k < i ==> !b@.contains(#[trigger] a@[k]),
        decreases a.len() - i,
    {
        if contains_vertex(b, a[i]) {
            assert(a@.to_set().contains(a@[i as int]) && b@.to_set().contains(a@[i as int])) by {
                assert(a@.contains(a@[i as int]));
            }
            return false;
        }
        i += 1;
    }
    assert forall|x: usize| a@.to_set().contains(x) implies !b@.to_set().contains(x) by {
        assert(a@.contains(x));
        let k = choose|k: int| 0 <= k < a@.len() && a@[k] == x;
        assert(!b@.contains(a@[k]));
    }
    true
}

/// Whether some edge of the graph joins a vertex of `a` to a vertex of `b`.
pub fn is_linked(a: &Vec<usize>, b: &Vec<usize>, g: &Graph) -> (r: bool)
    ensures
        r == linked(g.edges@, a@, b@),
{
    let mut i: usize = 0;
    while i < g.edges.len()
        invariant
            i <= g.edges.len(),
            forall|k: int|
                0 <= k < i ==> !(a@.contains((#[trigger] g.edges@[k])[0]) && b@.contains(
                    g.edges@[k][1],
                ) || a@.contains(g.edges@[k][1]) && b@.contains(g.edges@[k][0])),
        decreases g.edges.len() - i,
    {
        let e = g.edges[i];
        let x = e[0];
        let y = e[1];
        if (contains_vertex(a, x) && contains_vertex(b, y)) || (contains_vertex(a, y)
            && contains_vertex(b, x)) {
            assert(g.edges@[i as int][0] == x && g.edges@[i as int][1] == y);
            return true;
        }
        i += 1;
    }
    false
}

/// The compatibility test for two tubes of the graph `g`.
pub fn are_compatible(tube1: &Vec<usize>, tube2: &Vec<usize>, g: &Graph) -> (r: bool)
    ensures
        r == compatible(g.edges@, tube1@, tube2@),
{
    let below = is_subset(tube1, tube2);
    let above = is_subset(tube2, tube1);
    if below && above {
        return false;
    }
    if below || above {
        return true;
    }
    if is_disjoint(tube1, tube2) {
        !is_linked(tube1, tube2, g)
    } else {
        false
    }
}

} // verus!
