//! The flip graph: the tubings of the top level, each with its neighbours.

use vstd::prelude::*;
use crate::graph::Graph;
use crate::tube::{contains_tube, tubes_of};
use crate::tubing::{copy_tubing, tubings_of};

verus! {

/// The first position at which `flags` holds `true`, or its length if there
/// is none.
pub open spec fn least(flags: Seq<bool>) -> int {
    if exists|j: int| 0 <= j < flags.len() && flags[j] && forall|k: int| 0 <= k < j ==> !flags[k] {
        choose|j: int| 0 <= j < flags.len() && flags[j] && forall|k: int| 0 <= k < j ==> !flags[k]
    } else {
        flags.len() as int
    }
}

/// A position that holds `true` after positions that hold `false` is the
/// first such position.
pub proof fn lemma_least_is(flags: Seq<bool>, j: int)
    requires
        0 <= j < flags.len(),
        flags[j],
        forall|k: int| 0 <= k < j ==> !flags[k],
    ensures
        least(flags) == j,
{
    let m = least(flags);
    assert(0 <= m < flags.len() && flags[m] && forall|k: int| 0 <= k < m ==> !flags[k]);
    if m < j {
        assert(!flags[m]);
    }
    if j < m {
        assert(!flags[j]);
    }
}

/// The first position that holds `true` is no later than any position that
/// holds `true`.
pub proof fn lemma_least_le(flags: Seq<bool>, k: int)
    requires
        0 <= k < flags.len(),
        flags[k],
    ensures
        least(flags) <= k,
    decreases k,
{
    if forall|m: int| 0 <= m < k ==> !flags[m] {
        lemma_least_is(flags, k);
    } else {
        let m = choose|m: int| 0 <= m < k && flags[m];
        lemma_least_le(flags, m);
    }
}

/// Where no position holds `true`, the first such position is the length.
pub proof fn lemma_least_none(flags: Seq<bool>)
    requires
        forall|k: int| 0 <= k < flags.len() ==> !flags[k],
    ensures
        least(flags) == flags.len(),
{
}

/// How many of the first `n` tubes of `a` do not occur in `b`.
pub open spec fn absent_count(a: Seq<Seq<usize>>, b: Seq<Seq<usize>>, n: int) -> int
    decreases n,
{
    if n <= 0 {
        0
    } else {
        absent_count(a, b, n - 1) + if b.contains(a[n - 1]) {
            0int
        } else {
            1int
        }
    }
}

/// Exactly one tube of `a` does not occur in `b`.
pub open spec fn neighbors(a: Seq<Seq<usize>>, b: Seq<Seq<usize>>) -> bool {
    absent_count(a, b, a.len() as int) == 1
}

/// Whether a tube of `a` is missing from `b`, by its position in `a`.
pub open spec fn absent_at(a: Seq<Seq<usize>>, b: Seq<Seq<usize>>) -> Seq<bool> {
    Seq::new(a.len(), |i: int| !b.contains(a[i]))
}

/// The first tube of `a` that does not occur in `b`.
pub open spec fn first_absent(a: Seq<Seq<usize>>, b: Seq<Seq<usize>>) -> Option<Seq<usize>> {
    let i = least(absent_at(a, b));
    if i < a.len() {
        Some(a[i])
    } else {
        None
    }
}

/// Whether exactly one tube of `tubing1` is missing from `tubing2`.
pub fn are_neighboors(tubing1: &Vec<Vec<usize>>, tubing2: &Vec<Vec<usize>>) -> (r: bool)
    ensures
        r == neighbors(tubes_of(tubing1@), tubes_of(tubing2@)),
{
    let ghost a = tubes_of(tubing1@);
    let ghost b = tubes_of(tubing2@);
    let mut count: usize = 0;
    let mut i: usize = 0;
    while i < tubing1.len()
        invariant
            i <= tubing1.len(),
            a == tubes_of(tubing1@),
            b == tubes_of(tubing2@),
            count == absent_count(a, b, i as int),
            count <= i,
        decreases tubing1.len() - i,
    {
        assert(a[i as int] == tubing1@[i as int]@);
        if !contains_tube(tubing2, &tubing1[i]) {
            count += 1;
        }
        i += 1;
    }
    count == 1
}

/// The first tube of `v1` that does not occur in `v2`, if there is one.
pub fn new_tube<'a>(v1: &'a Vec<Vec<usize>>, v2: &'a Vec<Vec<usize>>) -> (r: Option<
    &'a Vec<usize>,
>)
    ensures
        match r {
            Some(t) => first_absent(tubes_of(v1@), tubes_of(v2@)) == Some(t@),
            None => first_absent(tubes_of(v1@), tubes_of(v2@)) is None,
        },
{
    let ghost a = tubes_of(v1@);
    let ghost b = tubes_of(v2@);
    let mut i: usize = 0;
    while i < v1.len()
        invariant
            i <= v1.len(),
            a == tubes_of(v1@),
            b == tubes_of(v2@),
            forall|k: int| 0 <= k < i ==> !absent_at(a, b)[k],
        decreases v1.len() - i,
    {
        assert(a[i as int] == v1@[i as int]@);
        if !contains_tube(v2, &v1[i]) {
            proof {
                lemma_least_is(absent_at(a, b), i as int);
            }
            return Some(&v1[i]);
        }
        i += 1;
    }
    proof {
        lemma_least_none(absent_at(a, b));
    }
    None
}

/// The positions below `n` of the tubings that `t` has for neighbours, in
/// rising order.
pub open spec fn neighbor_indices(vs: Seq<Seq<Seq<usize>>>, t: Seq<Seq<usize>>, n: int) -> Seq<
    usize,
>
    decreases n,
{
    if n <= 0 {
        Seq::empty()
    } else if neighbors(t, vs[n - 1]) {
        neighbor_indices(vs, t, n - 1).push((n - 1) as usize)
    } else {
        neighbor_indices(vs, t, n - 1)
    }
}

/// The positions of the neighbours below `n` are below `n`, and no more
/// than `n`.
pub proof fn lemma_neighbor_indices_below(vs: Seq<Seq<Seq<usize>>>, t: Seq<Seq<usize>>, n: int)
    requires
        0 <= n <= usize::MAX,
    ensures
        neighbor_indices(vs, t, n).len() <= n,
        forall|q: int|
            0 <= q < neighbor_indices(vs, t, n).len() ==> #[trigger] neighbor_indices(vs, t, n)[q]
                < n,
    decreases n,
{
    if n > 0 {
        lemma_neighbor_indices_below(vs, t, n - 1);
    }
}

/// The flip graph of a graph.
pub struct Flipgraph {
    /// How many vertices the graph has.
    pub vertex_count: usize,
    /// How many tubes the graph has.
    pub tube_count: usize,
    /// The tubings of the top level.
    pub vertices: Vec<Vec<Vec<usize>>>,
    /// For each tubing the positions in `vertices` of its neighbours.
    pub neighboorlist: Vec<Vec<usize>>,
}

impl Flipgraph {
    /// The tubings of the flip graph.
    pub open spec fn tubings(&self) -> Seq<Seq<Seq<usize>>> {
        tubings_of(self.vertices@)
    }

    /// Each tubing has its list of neighbours, which holds the positions of
    /// the tubings of which exactly one tube is missing from it, in rising
    /// order.
    pub open spec fn wf(&self) -> bool {
        &&& self.neighboorlist@.len() == self.vertices@.len()
        &&& forall|i: int|
            0 <= i < self.vertices@.len() ==> (#[trigger] self.neighboorlist@[i])@
                == neighbor_indices(
                self.tubings(),
                self.tubings()[i],
                self.vertices@.len() as int,
            )
    }

    /// Every entry of a list of neighbours is the position of a tubing.
    pub proof fn lemma_neighbors_in_range(&self, i: int, d: int)
        requires
            self.wf(),
            0 <= i < self.vertices@.len(),
            0 <= d < self.neighboorlist@[i]@.len(),
        ensures
            self.neighboorlist@[i]@[d] < self.vertices@.len(),
    {
        assert(self.vertices.len() == self.vertices@.len());
        lemma_neighbor_indices_below(
            self.tubings(),
            self.tubings()[i],
            self.vertices@.len() as int,
        );
    }
}

/// A copy of a list of tubings.
pub fn copy_tubings(list: &Vec<Vec<Vec<usize>>>) -> (r: Vec<Vec<Vec<usize>>>)
    ensures
        tubings_of(r@) == tubings_of(list@),
{
    let mut r: Vec<Vec<Vec<usize>>> = Vec::new();
    let mut i: usize = 0;
    while i < list.len()
        invariant
            i <= list.len(),
            tubings_of(r@) == tubings_of(list@).take(i as int),
        decreases list.len() - i,
    {
        let t = copy_tubing(&list[i]);
        let ghost prior = tubings_of(r@);
        r.push(t);
        assert(tubings_of(r@) =~= prior.push(tubes_of(t@)));
        assert(tubes_of(t@) == tubings_of(list@)[i as int]);
        assert(prior.push(tubes_of(t@)) =~= tubings_of(list@).take(i + 1));
        i += 1;
    }
    assert(tubings_of(list@).take(list@.len() as int) =~= tubings_of(list@));
    r
}

/// Builds the flip graph of `g`, finding its tubes and tubings first unless
/// they were found before.
pub fn flipgraph(g: &mut Graph) -> (fg: Flipgraph)
    requires
        old(g).wf(),
    ensures
        final(g).wf(),
        final(g).vertices == old(g).vertices,
        final(g).edges == old(g).edges,
        final(g).tubes is Some,
        final(g).tubings is Some,
        old(g).tubes is Some ==> final(g).tubes == old(g).tubes,
        old(g).tubings is Some ==> final(g).tubings == old(g).tubings,
        fg.wf(),
        fg.vertex_count == final(g).vertices@.len(),
        fg.tube_count == final(g).tubes.unwrap()@.len(),
        fg.tubings() == tubings_of(final(g).tubings.unwrap()@),
{
    g.find_tubings();
    g.find_tubes();
    let tube_count = match &g.tubes {
        Some(tubes) => tubes.len(),
        None => 0,
    };
    let vertices = match &g.tubings {
        Some(tubings) => copy_tubings(tubings),
        None => Vec::new(),
    };
    let ghost vs = tubings_of(vertices@);
    let mut neighboorlist: Vec<Vec<usize>> = Vec::new();
    let mut i: usize = 0;
    while i < vertices.len()
        invariant
            i <= vertices.len(),
            vs == tubings_of(vertices@),
            neighboorlist@.len() == i,
            forall|q: int|
                0 <= q < i ==> (#[trigger] neighboorlist@[q])@ == neighbor_indices(
                    vs,
                    vs[q],
                    vertices@.len() as int,
                ),
        decreases vertices.len() - i,
    {
        let mut row: Vec<usize> = Vec::new();
        let mut j: usize = 0;
        while j < vertices.len()
            invariant
                i < vertices.len(),
                j <= vertices.len(),
                vs == tubings_of(vertices@),
                row@ == neighbor_indices(vs, vs[i as int], j as int),
            decreases vertices.len() - j,
        {
            assert(vs[i as int] == tubes_of(vertices@[i as int]@));
            assert(vs[j as int] == tubes_of(vertices@[j as int]@));
            if are_neighboors(&vertices[i], &vertices[j]) {
                row.push(j);
            }
            j += 1;
        }
        neighboorlist.push(row);
        i += 1;
    }
    Flipgraph { vertex_count: g.vertices.len(), tube_count, vertices, neighboorlist }
}

} // verus!
