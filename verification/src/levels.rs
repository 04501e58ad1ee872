//! The tubings of a graph, grown level by level from single vertices.

use vstd::prelude::*;
use crate::enumerate::{is_tube, is_tube_list};
use crate::graph::Graph;
use crate::order::{lex_form_of, lex_sorted, tube_le, lemma_lex_form_unique};
use crate::parts::{is_combination, is_part_below, is_selection, pick, sorted_form_of};
use crate::reach::lemma_single_connected;
use crate::outside::sort_tubes;
use crate::tube::{compatible, tubes_of, lemma_compatible_symmetric};
use crate::tubing::{
    compatible_with, copy_tubing, fits, insert_tubing, is_extension, tubings_of,
};

verus! {

/// The tubing whose one tube is the vertex `v` alone.
pub open spec fn seed(v: usize) -> Seq<Seq<usize>> {
    seq![seq![v]]
}

/// `y` is a tubing of `k` tubes: for `k` = 1 a single vertex; above that
/// a tubing of the level below with one more tube compatible with all of
/// its tubes, the tubes put in dictionary order.
pub open spec fn in_level(
    vertices: Seq<usize>,
    edges: Seq<[usize; 2]>,
    k: nat,
    y: Seq<Seq<usize>>,
) -> bool
    decreases k,
{
    if k == 0 {
        false
    } else if k == 1 {
        exists|v: usize| vertices.contains(v) && y == #[trigger] seed(v)
    } else {
        exists|t: Seq<Seq<usize>>, c: Seq<usize>|
            in_level(vertices, edges, (k - 1) as nat, t) && is_tube(vertices, edges, c) && fits(
                edges,
                t,
                c,
            ) && lex_form_of(#[trigger] t.push(c), y)
    }
}

/// `list` holds each tubing of level `k` once, and nothing else.
pub open spec fn is_level_list(
    vertices: Seq<usize>,
    edges: Seq<[usize; 2]>,
    k: nat,
    list: Seq<Seq<Seq<usize>>>,
) -> bool {
    &&& list.no_duplicates()
    &&& forall|y: Seq<Seq<usize>>| list.contains(y) <==> in_level(vertices, edges, k, y)
}

/// The level at which growth ends for a graph of `n` vertices.
pub open spec fn top_level(n: nat) -> nat {
    if n >= 2 {
        (n - 1) as nat
    } else {
        1
    }
}

/// Any two tubes of `y` at different places are compatible.
pub open spec fn pairwise_compatible(edges: Seq<[usize; 2]>, y: Seq<Seq<usize>>) -> bool {
    forall|i: int, j: int|
        0 <= i < y.len() && 0 <= j < y.len() && i != j ==> compatible(
            edges,
            #[trigger] y[i],
            #[trigger] y[j],
        )
}

/// `c` is a tube of the graph or one of its vertices alone.
pub open spec fn is_member(vertices: Seq<usize>, edges: Seq<[usize; 2]>, c: Seq<usize>) -> bool {
    is_tube(vertices, edges, c) || exists|v: usize| vertices.contains(v) && c == #[trigger] seed(v)[0]
}

/// A tubing of level `k` has `k` tubes, no tube twice; any two of them are
/// compatible, and each is a tube of the graph or a single vertex.
pub proof fn lemma_level_tubing_sound(
    vertices: Seq<usize>,
    edges: Seq<[usize; 2]>,
    k: nat,
    y: Seq<Seq<usize>>,
)
    requires
        in_level(vertices, edges, k, y),
    ensures
        y.len() == k,
        y.no_duplicates(),
        pairwise_compatible(edges, y),
        forall|i: int| 0 <= i < y.len() ==> is_member(vertices, edges, #[trigger] y[i]),
    decreases k,
{
    broadcast use vstd::seq_lib::group_to_multiset_ensures;

    if k == 1 {
        let v = choose|v: usize| vertices.contains(v) && y == #[trigger] seed(v);
        assert(y[0] == seed(v)[0]);
    } else {
        let (t, c) = choose|t: Seq<Seq<usize>>, c: Seq<usize>|
            in_level(vertices, edges, (k - 1) as nat, t) && is_tube(vertices, edges, c) && fits(
                edges,
                t,
                c,
            ) && lex_form_of(#[trigger] t.push(c), y);
        lemma_level_tubing_sound(vertices, edges, (k - 1) as nat, t);
        let x = t.push(c);
        assert forall|i: int, j: int| 0 <= i < x.len() && 0 <= j < x.len() && i != j implies compatible(
            edges,
            #[trigger] x[i],
            #[trigger] x[j],
        ) by {
            if i < t.len() && j < t.len() {
                assert(compatible(edges, t[i], t[j]));
            } else if i < t.len() {
                assert(compatible(edges, c, t[i]));
                lemma_compatible_symmetric(edges, c, t[i]);
            } else {
                assert(compatible(edges, c, t[j]));
            }
        }
        assert(x.no_duplicates()) by {
            assert forall|i: int, j: int| 0 <= i < x.len() && 0 <= j < x.len() && i != j implies x[i]
                != x[j] by {
                assert(compatible(edges, x[i], x[j]));
            }
        }
        x.lemma_multiset_has_no_duplicates();
        y.lemma_multiset_has_no_duplicates_conv();
        assert(y.len() == x.len()) by {
            assert(y.to_multiset().len() == x.to_multiset().len());
        }
        assert forall|i: int| 0 <= i < y.len() implies x.contains(#[trigger] y[i]) by {
            assert(y.contains(y[i]));
            assert(y.to_multiset().count(y[i]) > 0);
            assert(x.to_multiset().count(y[i]) > 0);
        }
        assert forall|i: int, j: int| 0 <= i < y.len() && 0 <= j < y.len() && i != j implies compatible(
            edges,
            #[trigger] y[i],
            #[trigger] y[j],
        ) by {
            assert(x.contains(y[i]) && x.contains(y[j]));
            let p = choose|p: int| 0 <= p < x.len() && x[p] == y[i];
            let q = choose|q: int| 0 <= q < x.len() && x[q] == y[j];
            assert(compatible(edges, x[p], x[q]));
        }
        assert forall|i: int| 0 <= i < y.len() implies is_member(
            vertices,
            edges,
            #[trigger] y[i],
        ) by {
            assert(x.contains(y[i]));
            let p = choose|p: int| 0 <= p < x.len() && x[p] == y[i];
            if p < t.len() {
                assert(is_member(vertices, edges, t[p]));
            }
        }
    }
}

/// `c` is one vertex of the graph alone.
pub open spec fn is_single(vertices: Seq<usize>, c: Seq<usize>) -> bool {
    exists|v: usize| vertices.contains(v) && c == #[trigger] seed(v)[0]
}

/// `y` holds `k` tubes in dictionary order, any two of them compatible,
/// each a tube of the graph or a single vertex, and at least one a single
/// vertex.
pub open spec fn is_grown_tubing(
    vertices: Seq<usize>,
    edges: Seq<[usize; 2]>,
    k: nat,
    y: Seq<Seq<usize>>,
) -> bool {
    &&& k >= 1
    &&& y.len() == k
    &&& lex_sorted(y)
    &&& pairwise_compatible(edges, y)
    &&& forall|i: int| 0 <= i < y.len() ==> is_member(vertices, edges, #[trigger] y[i])
    &&& exists|i: int| 0 <= i < y.len() && is_single(vertices, #[trigger] y[i])
}

/// In a graph of two vertices or more, a single vertex is a tube.
pub proof fn lemma_single_is_tube(vertices: Seq<usize>, edges: Seq<[usize; 2]>, v: usize)
    requires
        vertices.len() >= 2,
        vertices.contains(v),
    ensures
        is_tube(vertices, edges, seed(v)[0]),
{
    let c = seed(v)[0];
    let at = choose|at: int| 0 <= at < vertices.len() && vertices[at] == v;
    let idx = seq![at];
    assert(is_selection(idx, vertices.len()));
    assert(pick(vertices, idx) =~= c);
    assert(is_combination(vertices, 1, c));
    assert(is_part_below(vertices, vertices.len(), c));
    lemma_single_connected(edges, v);
    assert(c =~= seq![v]);
    assert(sorted_form_of(c, c));
}

/// Every tubing of a level is a grown tubing of that size.
pub proof fn lemma_level_is_grown(
    vertices: Seq<usize>,
    edges: Seq<[usize; 2]>,
    k: nat,
    y: Seq<Seq<usize>>,
)
    requires
        in_level(vertices, edges, k, y),
    ensures
        is_grown_tubing(vertices, edges, k, y),
    decreases k,
{
    broadcast use vstd::seq_lib::group_to_multiset_ensures;

    lemma_level_tubing_sound(vertices, edges, k, y);
    if k == 1 {
        let v = choose|v: usize| vertices.contains(v) && y == #[trigger] seed(v);
        assert(is_single(vertices, y[0]));
    } else {
        let (t, c) = choose|t: Seq<Seq<usize>>, c: Seq<usize>|
            in_level(vertices, edges, (k - 1) as nat, t) && is_tube(vertices, edges, c) && fits(
                edges,
                t,
                c,
            ) && lex_form_of(#[trigger] t.push(c), y);
        lemma_level_is_grown(vertices, edges, (k - 1) as nat, t);
        let i = choose|i: int| 0 <= i < t.len() && is_single(vertices, #[trigger] t[i]);
        let x = t.push(c);
        assert(x[i] == t[i]);
        assert(x.contains(t[i]));
        assert(x.to_multiset().count(t[i]) > 0);
        assert(y.to_multiset().count(t[i]) > 0);
        assert(y.contains(t[i]));
        let m = choose|m: int| 0 <= m < y.len() && y[m] == t[i];
        assert(is_single(vertices, y[m]));
    }
}

/// In a graph of two vertices or more, every grown tubing of `k` tubes is
/// a tubing of level `k`.
pub proof fn lemma_grown_is_level(
    vertices: Seq<usize>,
    edges: Seq<[usize; 2]>,
    k: nat,
    y: Seq<Seq<usize>>,
)
    requires
        vertices.len() >= 2,
        is_grown_tubing(vertices, edges, k, y),
    ensures
        in_level(vertices, edges, k, y),
    decreases k,
{
    broadcast use vstd::seq_lib::group_to_multiset_ensures;

    let i = choose|i: int| 0 <= i < y.len() && is_single(vertices, #[trigger] y[i]);
    if k == 1 {
        let v = choose|v: usize| vertices.contains(v) && y[0] == #[trigger] seed(v)[0];
        assert(y =~= seed(v));
    } else {
        let j: int = if i == 0 {
            1
        } else {
            0
        };
        let c = y[j];
        let t = y.remove(j);
        assert(is_member(vertices, edges, c));
        if !is_tube(vertices, edges, c) {
            let w = choose|w: usize| vertices.contains(w) && c == #[trigger] seed(w)[0];
            lemma_single_is_tube(vertices, edges, w);
        }
        assert forall|a: int, b: int| 0 <= a < b < t.len() implies #[trigger] tube_le()(
            t[a],
            t[b],
        ) by {
            let a2 = if a < j {
                a
            } else {
                a + 1
            };
            let b2 = if b < j {
                b
            } else {
                b + 1
            };
            assert(t[a] == y[a2] && t[b] == y[b2]);
            assert(tube_le()(y[a2], y[b2]));
        }
        assert forall|a: int, b: int| 0 <= a < t.len() && 0 <= b < t.len() && a != b implies compatible(
            edges,
            #[trigger] t[a],
            #[trigger] t[b],
        ) by {
            let a2 = if a < j {
                a
            } else {
                a + 1
            };
            let b2 = if b < j {
                b
            } else {
                b + 1
            };
            assert(t[a] == y[a2] && t[b] == y[b2]);
            assert(compatible(edges, y[a2], y[b2]));
        }
        assert forall|a: int| 0 <= a < t.len() implies is_member(
            vertices,
            edges,
            #[trigger] t[a],
        ) by {
            let a2 = if a < j {
                a
            } else {
                a + 1
            };
            assert(t[a] == y[a2]);
        }
        let i2 = if i < j {
            i
        } else {
            i - 1
        };
        assert(t[i2] == y[i]);
        assert(is_single(vertices, t[i2]));
        assert(is_grown_tubing(vertices, edges, (k - 1) as nat, t));
        lemma_grown_is_level(vertices, edges, (k - 1) as nat, t);
        assert forall|q: int| 0 <= q < t.len() implies compatible(edges, c, #[trigger] t[q]) by {
            let q2 = if q < j {
                q
            } else {
                q + 1
            };
            assert(t[q] == y[q2]);
            assert(compatible(edges, y[j], y[q2]));
        }
        assert(t.push(c).to_multiset() =~= y.to_multiset()) by {
            assert(t.to_multiset() == y.to_multiset().remove(y[j]));
            assert(t.push(c).to_multiset() =~= t.to_multiset().insert(c));
            assert(y.contains(y[j]));
            assert(y.to_multiset().count(c) > 0);
        }
        assert(lex_form_of(t.push(c), y));
    }
}

/// `y` is `t` with one more of `tubes` that fits it, in dictionary order.
pub open spec fn grows_from(
    edges: Seq<[usize; 2]>,
    tubes: Seq<Seq<usize>>,
    t: Seq<Seq<usize>>,
    y: Seq<Seq<usize>>,
) -> bool {
    exists|c: Seq<usize>|
        tubes.contains(c) && fits(edges, t, c) && lex_form_of(#[trigger] t.push(c), y)
}

/// `y` grows from one of the first `a` tubings of `level`.
pub open spec fn grown_among(
    edges: Seq<[usize; 2]>,
    tubes: Seq<Seq<usize>>,
    level: Seq<Seq<Seq<usize>>>,
    a: int,
    y: Seq<Seq<usize>>,
) -> bool {
    exists|m: int|
        0 <= m < a && m < level.len() && grows_from(edges, tubes, #[trigger] level[m], y)
}

/// `y` is one of the first `b` of `xs` put in dictionary order.
pub open spec fn form_among(xs: Seq<Seq<Seq<usize>>>, b: int, y: Seq<Seq<usize>>) -> bool {
    exists|m: int| 0 <= m < b && m < xs.len() && lex_form_of(#[trigger] xs[m], y)
}

/// What a list holds after an item was added unless it was there.
pub proof fn lemma_insert_contains<A>(before: Seq<A>, after: Seq<A>, c: A)
    requires
        after == if before.contains(c) {
            before
        } else {
            before.push(c)
        },
    ensures
        forall|y: A| after.contains(y) <==> before.contains(y) || y == c,
{
    assert forall|y: A| after.contains(y) <==> before.contains(y) || y == c by {
        if before.contains(y) {
            let q = choose|q: int| 0 <= q < before.len() && before[q] == y;
            assert(after[q] == y);
        }
        if y == c && !before.contains(c) {
            assert(after[after.len() - 1] == c);
        }
        if after.contains(y) && !before.contains(c) {
            let q = choose|q: int| 0 <= q < after.len() && after[q] == y;
            if q < before.len() {
                assert(before[q] == y);
            }
        }
    }
}

proof fn lemma_forms_are_growths(
    edges: Seq<[usize; 2]>,
    tubes: Seq<Seq<usize>>,
    t: Seq<Seq<usize>>,
    xs: Seq<Seq<Seq<usize>>>,
    y: Seq<Seq<usize>>,
)
    requires
        forall|x: Seq<Seq<usize>>| xs.contains(x) <==> is_extension(edges, tubes, t, x),
    ensures
        form_among(xs, xs.len() as int, y) <==> grows_from(edges, tubes, t, y),
{
    if form_among(xs, xs.len() as int, y) {
        let m = choose|m: int| 0 <= m < xs.len() && m < xs.len() && lex_form_of(#[trigger] xs[m], y);
        assert(xs.contains(xs[m]));
        assert(is_extension(edges, tubes, t, xs[m]));
        let q = choose|q: int|
            0 <= q < tubes.len() && q < tubes.len() && fits(edges, t, #[trigger] tubes[q]) && xs[m]
                == t.push(tubes[q]);
        assert(tubes.contains(tubes[q]));
        assert(lex_form_of(t.push(tubes[q]), y));
    }
    if grows_from(edges, tubes, t, y) {
        let c = choose|c: Seq<usize>|
            tubes.contains(c) && fits(edges, t, c) && lex_form_of(#[trigger] t.push(c), y);
        let q = choose|q: int| 0 <= q < tubes.len() && tubes[q] == c;
        assert(fits(edges, t, tubes[q]) && t.push(c) == t.push(tubes[q]));
        assert(is_extension(edges, tubes, t, t.push(c)));
        assert(xs.contains(t.push(c)));
        let m = choose|m: int| 0 <= m < xs.len() && xs[m] == t.push(c);
        assert(lex_form_of(xs[m], y));
    }
}

proof fn lemma_grown_is_next_level(
    vertices: Seq<usize>,
    edges: Seq<[usize; 2]>,
    tubes: Seq<Seq<usize>>,
    level: Seq<Seq<Seq<usize>>>,
    k: nat,
    y: Seq<Seq<usize>>,
)
    requires
        k >= 1,
        is_tube_list(vertices, edges, tubes),
        is_level_list(vertices, edges, k, level),
    ensures
        grown_among(edges, tubes, level, level.len() as int, y) <==> in_level(
            vertices,
            edges,
            k + 1,
            y,
        ),
{
    if grown_among(edges, tubes, level, level.len() as int, y) {
        let m = choose|m: int|
            0 <= m < level.len() && m < level.len() && grows_from(
                edges,
                tubes,
                #[trigger] level[m],
                y,
            );
        let t = level[m];
        assert(level.contains(t));
        let c = choose|c: Seq<usize>|
            tubes.contains(c) && fits(edges, t, c) && lex_form_of(#[trigger] t.push(c), y);
        assert(in_level(vertices, edges, k, t));
        assert(is_tube(vertices, edges, c));
        assert(in_level(vertices, edges, k + 1, y));
    }
    if in_level(vertices, edges, k + 1, y) {
        let (t, c) = choose|t: Seq<Seq<usize>>, c: Seq<usize>|
            in_level(vertices, edges, k, t) && is_tube(vertices, edges, c) && fits(edges, t, c)
                && lex_form_of(#[trigger] t.push(c), y);
        assert(level.contains(t));
        assert(tubes.contains(c));
        let m = choose|m: int| 0 <= m < level.len() && level[m] == t;
        assert(grows_from(edges, tubes, level[m], y));
    }
}

impl Graph {
    /// What was found so far is what the graph has: the tubes, if any, are
    /// its tubes, and the tubings, if any, its tubings of the top level.
    pub open spec fn wf(&self) -> bool {
        &&& self.tubes is Some ==> is_tube_list(
            self.vertices@,
            self.edges@,
            tubes_of(self.tubes.unwrap()@),
        )
        &&& self.tubings is Some ==> is_level_list(
            self.vertices@,
            self.edges@,
            top_level(self.vertices@.len()),
            tubings_of(self.tubings.unwrap()@),
        )
    }

    /// A graph with nothing found yet.
    pub fn new(vertices: Vec<usize>, edges: Vec<[usize; 2]>) -> (g: Graph)
        ensures
            g.wf(),
            g.vertices == vertices,
            g.edges == edges,
            g.tubes is None,
            g.tubings is None,
    {
        Graph { vertices, edges, tubes: None, tubings: None }
    }

    /// Finds the tubings of the top level, and the tubes before them, unless
    /// the tubings were found before.
    pub fn find_tubings(&mut self)
        requires
            old(self).wf(),
        ensures
            final(self).wf(),
            final(self).vertices == old(self).vertices,
            final(self).edges == old(self).edges,
            final(self).tubings is Some,
            old(self).tubings is Some ==> *final(self) == *old(self),
            old(self).tubings is None ==> final(self).tubes is Some,
            old(self).tubes is Some ==> final(self).tubes == old(self).tubes,
    {
        if self.tubings.is_some() {
            return ;
        }
        self.find_tubes();
        let ghost vs = self.vertices@;
        let ghost es = self.edges@;
        let ghost ts = tubes_of(self.tubes.unwrap()@);
        let ghost found = self.tubes;
        let mut tubings: Vec<Vec<Vec<usize>>> = Vec::new();
        let mut i: usize = 0;
        while i < self.vertices.len()
            invariant
                i <= self.vertices.len(),
                vs == self.vertices@,
                tubings_of(tubings@).no_duplicates(),
                forall|y: Seq<Seq<usize>>|
                    tubings_of(tubings@).contains(y) <==> exists|m: int|
                        0 <= m < i && y == seed(#[trigger] vs[m]),
            decreases self.vertices.len() - i,
        {
            let ghost before = tubings_of(tubings@);
            let mut tube: Vec<usize> = Vec::new();
            tube.push(self.vertices[i]);
            let mut tubing: Vec<Vec<usize>> = Vec::new();
            tubing.push(tube);
            assert(tubes_of(tubing@) =~= seed(vs[i as int])) by {
                assert(tubing@[0]@ =~= seq![vs[i as int]]);
            }
            insert_tubing(&mut tubings, tubing);
            proof {
                let after = tubings_of(tubings@);
                lemma_insert_contains(before, after, seed(vs[i as int]));
                assert forall|y: Seq<Seq<usize>>| after.contains(y) <==> exists|m: int|
                    0 <= m < i + 1 && y == seed(#[trigger] vs[m]) by {
                    if before.contains(y) {
                        let m = choose|m: int| 0 <= m < i && y == seed(#[trigger] vs[m]);
                        assert(0 <= m < i + 1 && y == seed(vs[m]));
                    }
                    if exists|m: int| 0 <= m < i + 1 && y == seed(#[trigger] vs[m]) {
                        let m = choose|m: int| 0 <= m < i + 1 && y == seed(#[trigger] vs[m]);
                        if m < i {
                            assert(before.contains(y));
                        }
                    }
                }
            }
            i += 1;
        }
        let ghost mut k: nat = 1;
        proof {
            let list = tubings_of(tubings@);
            assert forall|y: Seq<Seq<usize>>| list.contains(y) <==> in_level(vs, es, 1, y) by {
                if list.contains(y) {
                    let m = choose|m: int| 0 <= m < vs.len() && y == seed(#[trigger] vs[m]);
                    assert(vs.contains(vs[m]));
                }
                if in_level(vs, es, 1, y) {
                    let v = choose|v: usize| vs.contains(v) && y == #[trigger] seed(v);
                    let m = choose|m: int| 0 <= m < vs.len() && vs[m] == v;
                    assert(y == seed(vs[m]));
                }
            }
        }
        let mut round: usize = 2;
        while round < self.vertices.len()
            invariant
                vs == self.vertices@,
                es == self.edges@,
                self.vertices == old(self).vertices,
                self.edges == old(self).edges,
                self.tubings is None,
                self.tubes == found,
                found is Some,
                ts == tubes_of(found.unwrap()@),
                is_tube_list(vs, es, ts),
                2 <= round,
                round <= vs.len() || round == 2,
                k == round - 1,
                is_level_list(vs, es, k, tubings_of(tubings@)),
            decreases self.vertices.len() - round,
        {
            let ghost level = tubings_of(tubings@);
            let mut next: Vec<Vec<Vec<usize>>> = Vec::new();
            let mut a: usize = 0;
            while a < tubings.len()
                invariant
                    a <= tubings.len(),
                    level == tubings_of(tubings@),
                    vs == self.vertices@,
                    es == self.edges@,
                    self.vertices == old(self).vertices,
                    self.edges == old(self).edges,
                    self.tubings is None,
                    self.tubes == found,
                    found is Some,
                    ts == tubes_of(found.unwrap()@),
                    tubings_of(next@).no_duplicates(),
                    forall|y: Seq<Seq<usize>>|
                        tubings_of(next@).contains(y) <==> grown_among(es, ts, level, a as int, y),
                decreases tubings.len() - a,
            {
                let ext = compatible_with(&tubings[a], self);
                let ghost t = level[a as int];
                let ghost xs = tubings_of(ext@);
                assert(t == tubes_of(tubings@[a as int]@));
                let mut b: usize = 0;
                while b < ext.len()
                    invariant
                        b <= ext.len(),
                        xs == tubings_of(ext@),
                        tubings_of(next@).no_duplicates(),
                        forall|y: Seq<Seq<usize>>|
                            tubings_of(next@).contains(y) <==> grown_among(
                                es,
                                ts,
                                level,
                                a as int,
                                y,
                            ) || form_among(xs, b as int, y),
                    decreases ext.len() - b,
                {
                    let ghost before = tubings_of(next@);
                    let mut cand = copy_tubing(&ext[b]);
                    assert(tubes_of(cand@) == xs[b as int]);
                    sort_tubes(&mut cand);
                    let ghost c = tubes_of(cand@);
                    insert_tubing(&mut next, cand);
                    proof {
                        let after = tubings_of(next@);
                        lemma_insert_contains(before, after, c);
                        assert forall|y: Seq<Seq<usize>>| after.contains(y) <==> grown_among(
                            es,
                            ts,
                            level,
                            a as int,
                            y,
                        ) || form_among(xs, b + 1, y) by {
                            if form_among(xs, b as int, y) {
                                let m = choose|m: int|
                                    0 <= m < b && m < xs.len() && lex_form_of(#[trigger] xs[m], y);
                                assert(m < b + 1);
                            }
                            if y == c {
                                assert(lex_form_of(xs[b as int], y));
                            }
                            if form_among(xs, b + 1, y) {
                                let m = choose|m: int|
                                    0 <= m < b + 1 && m < xs.len() && lex_form_of(
                                        #[trigger] xs[m],
                                        y,
                                    );
                                if m < b {
                                    assert(form_among(xs, b as int, y));
                                } else {
                                    lemma_lex_form_unique(xs[b as int], y, c);
                                }
                            }
                        }
                    }
                    b += 1;
                }
                proof {
                    assert forall|y: Seq<Seq<usize>>|
                        tubings_of(next@).contains(y) <==> grown_among(
                            es,
                            ts,
                            level,
                            a + 1,
                            y,
                        ) by {
                        lemma_forms_are_growths(es, ts, t, xs, y);
                        if grown_among(es, ts, level, a as int, y) {
                            let m = choose|m: int|
                                0 <= m < a && m < level.len() && grows_from(
                                    es,
                                    ts,
                                    #[trigger] level[m],
                                    y,
                                );
                            assert(m < a + 1);
                        }
                        if grows_from(es, ts, t, y) {
                            assert(grows_from(es, ts, level[a as int], y));
                        }
                        if grown_among(es, ts, level, a + 1, y) {
                            let m = choose|m: int|
                                0 <= m < a + 1 && m < level.len() && grows_from(
                                    es,
                                    ts,
                                    #[trigger] level[m],
                                    y,
                                );
                            if m < a {
                                assert(grown_among(es, ts, level, a as int, y));
                            }
                        }
                    }
                }
                a += 1;
            }
            proof {
                assert forall|y: Seq<Seq<usize>>|
                    tubings_of(next@).contains(y) <==> in_level(vs, es, k + 1, y) by {
                    lemma_grown_is_next_level(vs, es, ts, level, k, y);
                }
                k = k + 1;
            }
            tubings = next;
            round += 1;
        }
        assert(k == top_level(vs.len()));
        self.tubings = Some(tubings);
    }
}

} // verus!
