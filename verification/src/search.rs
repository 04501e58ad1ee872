//! The randomized search for a facet Hamiltonian path or cycle: walks over
//! the flip graph that never flip the same tube twice.

use vstd::prelude::*;
use vstd::seq_lib::seq_to_set_is_finite;
use vstd::set_lib::lemma_subset_equality;
use crate::enumerate::{copy_tube, is_tube};
use crate::flip::flipgraph;
use crate::graph::Graph;
use crate::levels::{is_member, lemma_level_tubing_sound, lemma_single_is_tube, seed, top_level};
use crate::reach::connected;
use crate::tubing::tubings_of;
use crate::flip::{
    first_absent, least, lemma_least_is, lemma_least_le, lemma_least_none, new_tube, Flipgraph,
};
use crate::outside::{parallel_trials, random_index, shuffle};
use crate::reach::lemma_distinct_bound;
use crate::tube::{contains_tube, tubes_of};

verus! {

/// A walk over the flip graph: the positions of the tubings visited, where
/// it began and where it stands, and the tubes seen on the way.
pub struct Fhp {
    pub end: usize,
    pub start: usize,
    pub path: Vec<usize>,
    pub alr_seen: Vec<Vec<usize>>,
}

/// The walk `p` is the walk `from` walked on: it visits first what `from`
/// visited and has seen first what `from` had seen.
pub open spec fn continues(from: Fhp, p: Fhp) -> bool {
    &&& from.path@.is_prefix_of(p.path@)
    &&& tubes_of(from.alr_seen@).is_prefix_of(tubes_of(p.alr_seen@))
}

proof fn lemma_in_flatten(vs: Seq<Seq<Seq<usize>>>, i: int, x: Seq<usize>)
    requires
        0 <= i < vs.len(),
        vs[i].contains(x),
    ensures
        vs.flatten().contains(x),
    decreases vs.len(),
{
    let rest = vs.drop_first();
    let all = vs.first() + rest.flatten();
    assert(vs.flatten() == all);
    if i == 0 {
        let q = choose|q: int| 0 <= q < vs[0].len() && vs[0][q] == x;
        assert(all[q] == x);
    } else {
        assert(rest[i - 1] == vs[i]);
        lemma_in_flatten(rest, i - 1, x);
        let q = choose|q: int| 0 <= q < rest.flatten().len() && rest.flatten()[q] == x;
        assert(all[vs.first().len() + q] == x);
    }
}

impl Flipgraph {
    /// The tube that marks the flip from the tubing at `from` to the one at
    /// `to`: the first tube of the second that the first does not have.
    pub open spec fn label(&self, from: int, to: int) -> Option<Seq<usize>> {
        first_absent(self.tubings()[to], self.tubings()[from])
    }

    /// From the tubing at `end` the direction `d` leads to a neighbour, by
    /// a flip whose tube is not among `seen`.
    pub open spec fn open_at(&self, end: int, seen: Seq<Seq<usize>>, d: usize) -> bool {
        &&& d < self.neighboorlist@[end]@.len()
        &&& self.label(end, self.neighboorlist@[end]@[d as int] as int) is Some
        &&& !seen.contains(self.label(end, self.neighboorlist@[end]@[d as int] as int).unwrap())
    }

    /// For each of `flips`, whether that direction is open.
    pub open spec fn open_flags(&self, end: int, seen: Seq<Seq<usize>>, flips: Seq<usize>) -> Seq<
        bool,
    > {
        Seq::new(flips.len(), |j: int| self.open_at(end, seen, flips[j]))
    }

    /// The tubing at `to` is a neighbour of the one at `from`, and `mark` is
    /// the tube of the flip between them.
    pub open spec fn is_flip(&self, from: usize, to: usize, mark: Seq<usize>) -> bool {
        &&& self.neighboorlist@[from as int]@.contains(to)
        &&& self.label(from as int, to as int) == Some(mark)
    }

    /// `path` goes from neighbour to neighbour, and `labels` holds the tubes
    /// of its flips in turn.
    pub open spec fn is_trail(&self, path: Seq<usize>, labels: Seq<Seq<usize>>) -> bool {
        &&& path.len() == labels.len() + 1
        &&& forall|k: int| 0 <= k < path.len() ==> #[trigger] path[k] < self.vertices@.len()
        &&& forall|k: int|
            0 <= k < labels.len() ==> self.is_flip(path[k], path[k + 1], #[trigger] labels[k])
    }

    /// `p` is a walk from `p.start` to `p.end` that has seen the tubes of
    /// its flips, in turn, and no tube twice.
    pub open spec fn walk_ok(&self, p: Fhp) -> bool {
        &&& p.path@.len() >= 1
        &&& p.path@[0] == p.start
        &&& p.path@.last() == p.end
        &&& tubes_of(p.alr_seen@).no_duplicates()
        &&& self.is_trail(p.path@, tubes_of(p.alr_seen@))
    }

    /// `p` is a walk whose flips have as many tubes, all different, as the
    /// graph has.
    pub open spec fn is_path_witness(&self, p: Fhp) -> bool {
        &&& p.start < self.vertices@.len()
        &&& self.walk_ok(p)
        &&& p.alr_seen@.len() == self.tube_count
    }

    /// `p` is a walk that is back where it began and has seen, in its
    /// flips, as many tubes as the graph has.
    pub open spec fn is_cycle_witness(&self, p: Fhp) -> bool {
        &&& p.start < self.vertices@.len()
        &&& self.walk_ok(p)
        &&& p.alr_seen@.len() == self.tube_count
        &&& p.start == p.end
    }

    /// The walk has seen as many tubes as the graph has and, for a cycle,
    /// stands where it began.
    pub open spec fn complete(&self, p: Fhp, cycle: bool) -> bool {
        p.alr_seen@.len() == self.tube_count && (cycle ==> p.start == p.end)
    }

    /// From where the walk stands no direction is open: each leads nowhere
    /// or to a flip whose tube the walk has seen.
    pub open spec fn stuck(&self, p: Fhp) -> bool {
        forall|d: usize|
            d + 1 < self.vertex_count ==> !(#[trigger] self.open_at(
                p.end as int,
                tubes_of(p.alr_seen@),
                d,
            ))
    }

    /// `p` is a walk that is not complete and cannot go on.
    pub open spec fn stuck_walk(&self, p: Fhp, cycle: bool) -> bool {
        &&& p.start < self.vertices@.len()
        &&& self.walk_ok(p)
        &&& !self.complete(p, cycle)
        &&& self.stuck(p)
    }

    /// Some walk over the flip graph gets stuck before it is complete.
    pub open spec fn gets_stuck(&self, cycle: bool) -> bool {
        exists|p: Fhp| #[trigger] self.stuck_walk(p, cycle)
    }

    /// Where a shuffle of the directions holds no open one, the walk is
    /// stuck.
    pub proof fn lemma_none_open_is_stuck(&self, p: Fhp, flips: Seq<usize>, dirs: Seq<usize>)
        requires
            flips.to_multiset() == dirs.to_multiset(),
            dirs.len() == if self.vertex_count > 0 {
                self.vertex_count - 1
            } else {
                0
            },
            forall|k: int| 0 <= k < dirs.len() ==> dirs[k] == k,
            least(self.open_flags(p.end as int, tubes_of(p.alr_seen@), flips)) == flips.len(),
        ensures
            self.stuck(p),
    {
        broadcast use vstd::seq_lib::group_to_multiset_ensures;

        let seen = tubes_of(p.alr_seen@);
        let flags = self.open_flags(p.end as int, seen, flips);
        assert forall|d: usize| d + 1 < self.vertex_count implies !(#[trigger] self.open_at(
            p.end as int,
            seen,
            d,
        )) by {
            assert(dirs[d as int] == d);
            assert(dirs.contains(d));
            assert(dirs.to_multiset().count(d) > 0);
            assert(flips.to_multiset().count(d) > 0);
            assert(flips.contains(d));
            let j = choose|j: int| 0 <= j < flips.len() && flips[j] == d;
            if self.open_at(p.end as int, seen, d) {
                assert(flags[j]);
                lemma_least_le(flags, j);
            }
        }
    }

    /// All the tubes of all the tubings, in one list.
    pub open spec fn pool(&self) -> Seq<Seq<usize>> {
        self.tubings().flatten()
    }

    /// Every tube that a walk has seen is a tube of some tubing of the flip
    /// graph.
    pub proof fn lemma_seen_in_pool(&self, p: Fhp)
        requires
            self.walk_ok(p),
        ensures
            forall|q: int|
                0 <= q < p.alr_seen@.len() ==> self.pool().contains(
                    #[trigger] tubes_of(p.alr_seen@)[q],
                ),
    {
        let seen = tubes_of(p.alr_seen@);
        assert forall|q: int| 0 <= q < seen.len() implies self.pool().contains(
            #[trigger] seen[q],
        ) by {
            assert(self.is_flip(p.path@[q], p.path@[q + 1], seen[q]));
            let to = p.path@[q + 1];
            assert(to < self.vertices@.len());
            assert(self.tubings()[to as int].contains(seen[q]));
            lemma_in_flatten(self.tubings(), to as int, seen[q]);
        }
    }

    /// A trail prolonged by a flip to a neighbour is a trail.
    pub proof fn lemma_trail_extends(
        &self,
        path: Seq<usize>,
        labels: Seq<Seq<usize>>,
        to: usize,
        mark: Seq<usize>,
        d: int,
    )
        requires
            self.is_trail(path, labels),
            to < self.vertices@.len(),
            0 <= d < self.neighboorlist@[path.last() as int]@.len(),
            self.neighboorlist@[path.last() as int]@[d] == to,
            self.label(path.last() as int, to as int) == Some(mark),
        ensures
            self.is_trail(path.push(to), labels.push(mark)),
    {
        let longer = path.push(to);
        let marks = labels.push(mark);
        assert forall|k: int| 0 <= k < longer.len() implies #[trigger] longer[k] < self.vertices@.len() by {
            if k < path.len() {
                assert(longer[k] == path[k]);
            }
        }
        assert forall|k: int| 0 <= k < marks.len() implies self.is_flip(
            longer[k],
            longer[k + 1],
            #[trigger] marks[k],
        ) by {
            if k < labels.len() {
                assert(longer[k] == path[k]);
                assert(longer[k + 1] == path[k + 1]);
                assert(marks[k] == labels[k]);
                assert(self.is_flip(path[k], path[k + 1], labels[k]));
            } else {
                assert(longer[k] == path.last());
                assert(longer[k + 1] == to);
                let row = self.neighboorlist@[longer[k] as int]@;
                assert(row[d] == longer[k + 1]);
            }
        }
    }

    /// Moves the walk along the first direction of `flips` that is open,
    /// and says whether there was one.
    pub fn step(&self, path: &mut Fhp, flips: &Vec<usize>) -> (moved: bool)
        requires
            self.wf(),
            old(path).end < self.vertices@.len(),
        ensures
            ({
                let seen = tubes_of(old(path).alr_seen@);
                let j = least(self.open_flags(old(path).end as int, seen, flips@));
                if j == flips@.len() {
                    !moved && *final(path) == *old(path)
                } else {
                    let to = self.neighboorlist@[old(path).end as int]@[flips@[j] as int];
                    &&& moved
                    &&& self.open_at(old(path).end as int, seen, flips@[j])
                    &&& to < self.vertices@.len()
                    &&& final(path).end == to
                    &&& final(path).start == old(path).start
                    &&& final(path).path@ == old(path).path@.push(to)
                    &&& tubes_of(final(path).alr_seen@) == seen.push(
                        self.label(old(path).end as int, to as int).unwrap(),
                    )
                }
            }),
    {
        let ghost before = *path;
        let ghost seen = tubes_of(path.alr_seen@);
        let ghost flags = self.open_flags(path.end as int, seen, flips@);
        let mut j: usize = 0;
        while j < flips.len()
            invariant
                j <= flips.len(),
                self.wf(),
                *path == before,
                before == *old(path),
                before.end < self.vertices@.len(),
                seen == tubes_of(before.alr_seen@),
                flags == self.open_flags(before.end as int, seen, flips@),
                forall|k: int| 0 <= k < j ==> !flags[k],
            decreases flips.len() - j,
        {
            let d = flips[j];
            let here = path.end;
            if d < self.neighboorlist[here].len() {
                let to = self.neighboorlist[here][d];
                proof {
                    self.lemma_neighbors_in_range(here as int, d as int);
                }
                assert(self.tubings()[to as int] == tubes_of(self.vertices@[to as int]@));
                assert(self.tubings()[here as int] == tubes_of(self.vertices@[here as int]@));
                match new_tube(&self.vertices[to], &self.vertices[here]) {
                    Some(t) => {
                        if !contains_tube(&path.alr_seen, t) {
                            proof {
                                assert(self.label(here as int, to as int) == Some(t@));
                                assert(self.open_at(here as int, seen, d));
                                assert(flags[j as int]);
                                lemma_least_is(flags, j as int);
                            }
                            let c = copy_tube(t);
                            path.alr_seen.push(c);
                            path.end = to;
                            path.path.push(to);
                            proof {
                                assert(tubes_of(path.alr_seen@) =~= seen.push(t@));
                            }
                            return true;
                        }
                    },
                    None => {},
                }
            }
            assert(!flags[j as int]);
            j += 1;
        }
        proof {
            lemma_least_none(flags);
        }
        false
    }

    /// The directions that a walk may take: one fewer than the graph has
    /// vertices.
    pub fn directions(&self) -> (flips: Vec<usize>)
        ensures
            flips@.len() == if self.vertex_count > 0 {
                self.vertex_count - 1
            } else {
                0
            },
            forall|k: int| 0 <= k < flips@.len() ==> flips@[k] == k,
    {
        let mut flips: Vec<usize> = Vec::new();
        let mut d: usize = 1;
        while d < self.vertex_count
            invariant
                1 <= d,
                d <= self.vertex_count || d == 1,
                flips@.len() == d - 1,
                forall|k: int| 0 <= k < flips@.len() ==> flips@[k] == k,
            decreases self.vertex_count - d,
        {
            flips.push(d - 1);
            d += 1;
        }
        flips
    }

    /// Walks on from where `path` stands, each time along the first open
    /// direction of a fresh shuffle, until the walk is complete or stuck.
    /// Complete means: as many tubes seen as the graph has, and for a
    /// cycle the walk back where it began.
    pub fn walk_on(&self, from: Fhp, cycle: bool) -> (r: Result<usize, Fhp>)
        requires
            self.wf(),
            from.start < self.vertices@.len(),
            self.walk_ok(from),
        ensures
            match r {
                Ok(v) => v == 0 && !self.complete(from, cycle) && exists|p: Fhp|
                    #[trigger] self.stuck_walk(p, cycle) && p.start == from.start && continues(
                        from,
                        p,
                    ),
                Err(p) => p.start == from.start && continues(from, p) && self.complete(p, cycle)
                    && if cycle {
                    self.is_cycle_witness(p)
                } else {
                    self.is_path_witness(p)
                },
            },
            self.complete(from, cycle) ==> r == Err::<usize, Fhp>(from),
    {
        let ghost mut moved_yet = false;
        let ghost origin = from.start;
        let mut path = from;
        proof {
            self.lemma_seen_in_pool(from);
        }
        let mut flips = self.directions();
        let ghost dirs = flips@;
        let mut flipped = true;
        while flipped
            invariant
                self.wf(),
                flips@.to_multiset() == dirs.to_multiset(),
                dirs.len() == if self.vertex_count > 0 {
                    self.vertex_count - 1
                } else {
                    0
                },
                forall|k: int| 0 <= k < dirs.len() ==> dirs[k] == k,
                continues(from, path),
                !flipped ==> self.stuck(path) && !self.complete(path, cycle),
                path.start == origin,
                origin == from.start,
                !moved_yet ==> path == from,
                moved_yet ==> !self.complete(from, cycle),
                !flipped ==> !self.complete(from, cycle),
                origin < self.vertices@.len(),
                self.walk_ok(path),
                forall|q: int|
                    0 <= q < path.alr_seen@.len() ==> self.pool().contains(
                        #[trigger] tubes_of(path.alr_seen@)[q],
                    ),
            decreases
                    self.pool().len() - path.alr_seen@.len(),
                    if flipped {
                        1int
                    } else {
                        0int
                    },
        {
            if path.alr_seen.len() == self.tube_count && (!cycle || path.start == path.end) {
                return Err(path);
            }
            shuffle(&mut flips);
            let ghost before = path;
            let ghost seen = tubes_of(path.alr_seen@);
            proof {
                lemma_distinct_bound(seen, self.pool());
                assert(path.path@[path.path@.len() - 1] < self.vertices@.len());
            }
            flipped = self.step(&mut path, &flips);
            proof {
                moved_yet = moved_yet || flipped;
                if !flipped {
                    self.lemma_none_open_is_stuck(path, flips@, dirs);
                }
                if flipped {
                    let j = least(self.open_flags(before.end as int, seen, flips@));
                    let to = self.neighboorlist@[before.end as int]@[flips@[j] as int];
                    let mark = self.label(before.end as int, to as int).unwrap();
                    let after = tubes_of(path.alr_seen@);
                    let labels = seen;
                    assert(self.tubings()[to as int].contains(mark));
                    lemma_in_flatten(self.tubings(), to as int, mark);
                    assert forall|q: int| 0 <= q < after.len() implies self.pool().contains(
                        #[trigger] after[q],
                    ) by {
                        if q < seen.len() {
                            assert(after[q] == seen[q]);
                        }
                    }
                    self.lemma_trail_extends(before.path@, labels, to, mark, flips@[j] as int);
                    lemma_distinct_bound(after, self.pool());
                    assert(from.path@ =~= path.path@.subrange(0, from.path@.len() as int));
                    assert(tubes_of(from.alr_seen@) =~= after.subrange(
                        0,
                        from.alr_seen@.len() as int,
                    ));
                }
            }
        }
        assert(self.stuck_walk(path, cycle));
        Ok(0)
    }

    /// The walk that stands at `start` and has not moved yet: it has seen
    /// no tube.
    pub fn begin(&self, start: usize) -> (p: Fhp)
        requires
            start < self.vertices@.len(),
        ensures
            p.start == start,
            p.end == start,
            p.path@ == seq![start],
            p.alr_seen@.len() == 0,
            self.walk_ok(p),
    {
        let mut path: Vec<usize> = Vec::new();
        path.push(start);
        let p = Fhp { end: start, start, path, alr_seen: Vec::new() };
        proof {
            assert(p.path@ =~= seq![start]);
        }
        p
    }

    /// One trial from a tubing chosen at random: `Err` with the walk where
    /// it came to be complete, `Ok(0)` where it got stuck before.
    pub fn try_for_one(&self, cycle: bool) -> (r: Result<usize, Fhp>)
        requires
            self.wf(),
            self.vertices@.len() > 0,
        ensures
            match r {
                Ok(v) => v == 0 && self.gets_stuck(cycle),
                Err(p) => if cycle {
                    self.is_cycle_witness(p)
                } else {
                    self.is_path_witness(p)
                },
            },
    {
        let start = random_index(self.vertices.len());
        let path = self.begin(start);
        self.walk_on(path, cycle)
    }

    /// One trial for a path from a tubing chosen at random: `Err` with the
    /// walk where it came to see as many tubes as the graph has, `Ok(0)`
    /// where it got stuck before.
    pub fn try_for_one_fhp(&self) -> (r: Result<usize, Fhp>)
        requires
            self.wf(),
            self.vertices@.len() > 0,
        ensures
            match r {
                Ok(v) => v == 0 && self.gets_stuck(false),
                Err(p) => self.is_path_witness(p),
            },
    {
        self.try_for_one(false)
    }

    /// One trial for a cycle from a tubing chosen at random: `Err` with the
    /// walk where it was back at its start with as many tubes seen as the
    /// graph has, `Ok(0)` where it got stuck before.
    pub fn try_for_one_fhc(&self) -> (r: Result<usize, Fhp>)
        requires
            self.wf(),
            self.vertices@.len() > 0,
        ensures
            match r {
                Ok(v) => v == 0 && self.gets_stuck(true),
                Err(p) => self.is_cycle_witness(p),
            },
    {
        self.try_for_one(true)
    }

    /// Runs `tries` trials for a path and gives the walk of one that
    /// succeeded, if any did. It gives none only where there was no trial
    /// or some walk for a path gets stuck.
    pub fn find_fhp_rand(&self, tries: usize) -> (r: Option<Fhp>)
        requires
            self.wf(),
            self.vertices@.len() > 0,
        ensures
            tries == 0 ==> r is None,
            r matches Some(p) ==> self.is_path_witness(p),
            r is None ==> tries == 0 || self.gets_stuck(false),
            tries > 0 && !self.gets_stuck(false) ==> r is Some,
    {
        let res = parallel_trials(self, tries, false);
        witness_of(res)
    }

    /// Runs `tries` trials for a cycle and gives the walk of one that
    /// succeeded, if any did. It gives none only where there was no trial
    /// or some walk for a cycle gets stuck.
    pub fn find_fhc_rand(&self, tries: usize) -> (r: Option<Fhp>)
        requires
            self.wf(),
            self.vertices@.len() > 0,
        ensures
            tries == 0 ==> r is None,
            r matches Some(p) ==> self.is_cycle_witness(p),
            r is None ==> tries == 0 || self.gets_stuck(true),
            tries > 0 && !self.gets_stuck(true) ==> r is Some,
    {
        let res = parallel_trials(self, tries, true);
        witness_of(res)
    }
}

/// What a run of trials found: the walk of the trial that succeeded, or
/// nothing where every trial got stuck.
pub fn witness_of(res: Result<Vec<usize>, Fhp>) -> (r: Option<Fhp>)
    ensures
        r == match res {
            Ok(_) => None,
            Err(p) => Some(p),
        },
{
    match res {
        Ok(_) => None,
        Err(path) => Some(path),
    }
}

/// In a graph of two vertices or more, the tubes of the flips of a
/// complete walk are the tubes of the graph: each of them, and nothing else.
pub proof fn lemma_witness_sees_all_tubes(g: Graph, fg: Flipgraph, p: Fhp)
    requires
        g.wf(),
        g.tubes is Some,
        g.tubings is Some,
        g.vertices@.len() >= 2,
        fg.tubings() == tubings_of(g.tubings.unwrap()@),
        fg.tube_count == g.tubes.unwrap()@.len(),
        fg.walk_ok(p),
        p.alr_seen@.len() == fg.tube_count,
    ensures
        p.path@.len() == g.tubes.unwrap()@.len() + 1,
        forall|c: Seq<usize>|
            tubes_of(p.alr_seen@).contains(c) <==> tubes_of(g.tubes.unwrap()@).contains(c),
{
    let seen = tubes_of(p.alr_seen@);
    let ts = tubes_of(g.tubes.unwrap()@);
    let vs = g.vertices@;
    let es = g.edges@;
    let level = fg.tubings();
    assert forall|q: int| 0 <= q < seen.len() implies ts.contains(#[trigger] seen[q]) by {
        assert(fg.is_flip(p.path@[q], p.path@[q + 1], seen[q]));
        let to = p.path@[q + 1];
        assert(to < fg.vertices@.len());
        let y = level[to as int];
        assert(y.contains(seen[q]));
        assert(level.contains(y));
        assert(crate::levels::in_level(vs, es, top_level(vs.len()), y));
        lemma_level_tubing_sound(vs, es, top_level(vs.len()), y);
        let i = choose|i: int| 0 <= i < y.len() && y[i] == seen[q];
        assert(is_member(vs, es, y[i]));
        if !is_tube(vs, es, seen[q]) {
            let v = choose|v: usize| vs.contains(v) && seen[q] == #[trigger] seed(v)[0];
            lemma_single_is_tube(vs, es, v);
        }
    }
    seen.unique_seq_to_set();
    ts.unique_seq_to_set();
    seq_to_set_is_finite(seen);
    seq_to_set_is_finite(ts);
    assert(seen.to_set().subset_of(ts.to_set())) by {
        assert forall|c: Seq<usize>| seen.to_set().contains(c) implies ts.to_set().contains(c) by {
            assert(seen.contains(c));
            let q = choose|q: int| 0 <= q < seen.len() && seen[q] == c;
            assert(ts.contains(seen[q]));
        }
    }
    lemma_subset_equality(seen.to_set(), ts.to_set());
    assert forall|c: Seq<usize>| seen.contains(c) <==> ts.contains(c) by {
        assert(seen.to_set().contains(c) <==> ts.to_set().contains(c));
    }
}

/// What the search says of one graph.
pub enum Outcome {
    /// The graph is not connected, and was not searched.
    Excluded,
    /// No trial came to a complete walk.
    NotFound,
    /// The walk of a trial that came to be complete.
    Found(Fhp),
}

/// Searches the flip graph of `g` for a path, or for a cycle, in `tries`
/// trials, unless `g` is not connected: then nothing is built or searched.
/// Gives the flip graph too, which is empty where the graph was excluded.
pub fn search(g: &mut Graph, cycle: bool, tries: usize) -> (r: (Outcome, Flipgraph))
    requires
        old(g).wf(),
    ensures
        final(g).wf(),
        final(g).vertices == old(g).vertices,
        final(g).edges == old(g).edges,
        r.1.wf(),
        r.0 is Excluded <==> !connected(old(g).edges@, old(g).vertices@),
        r.0 is Excluded ==> *final(g) == *old(g) && r.1.vertices@.len() == 0,
        !(r.0 is Excluded) ==> final(g).tubes is Some && final(g).tubings is Some
            && r.1.vertex_count == final(g).vertices@.len() && r.1.tube_count
            == final(g).tubes.unwrap()@.len() && r.1.tubings() == tubings_of(
            final(g).tubings.unwrap()@,
        ),
        r.0 matches Outcome::Found(p) ==> if cycle {
            r.1.is_cycle_witness(p)
        } else {
            r.1.is_path_witness(p)
        },
        r.0 is NotFound ==> tries == 0 || r.1.vertices@.len() == 0 || r.1.gets_stuck(cycle),
{
    if !g.is_connected(&g.vertices) {
        let fg = Flipgraph {
            vertex_count: g.vertices.len(),
            tube_count: 0,
            vertices: Vec::new(),
            neighboorlist: Vec::new(),
        };
        return (Outcome::Excluded, fg);
    }
    let fg = flipgraph(g);
    if fg.vertices.len() == 0 {
        return (Outcome::NotFound, fg);
    }
    let found = if cycle {
        fg.find_fhc_rand(tries)
    } else {
        fg.find_fhp_rand(tries)
    };
    match found {
        Some(p) => (Outcome::Found(p), fg),
        None => (Outcome::NotFound, fg),
    }
}

} // verus!
