//! Tubings: lists of tubes, and the tubes that may join one.

use vstd::prelude::*;
use crate::enumerate::{copy_tube, is_tube_list};
use crate::graph::Graph;
use crate::tube::{are_compatible, compatible, tube_eq, tubes_of};

verus! {

/// The tubings of a list, each as the sequence of its tubes.
pub open spec fn tubings_of(list: Seq<Vec<Vec<usize>>>) -> Seq<Seq<Seq<usize>>> {
    list.map_values(|t: Vec<Vec<usize>>| tubes_of(t@))
}

/// The tube `c` is compatible with every tube of `t`.
pub open spec fn fits(edges: Seq<[usize; 2]>, t: Seq<Seq<usize>>, c: Seq<usize>) -> bool {
    forall|q: int| 0 <= q < t.len() ==> compatible(edges, c, #[trigger] t[q])
}

/// `x` is `t` with one of the first `i` of `tubes` that fits it put at its end.
pub open spec fn extension_among(
    edges: Seq<[usize; 2]>,
    tubes: Seq<Seq<usize>>,
    t: Seq<Seq<usize>>,
    i: int,
    x: Seq<Seq<usize>>,
) -> bool {
    exists|m: int|
        0 <= m < i && m < tubes.len() && fits(edges, t, #[trigger] tubes[m]) && x == t.push(
            tubes[m],
        )
}

/// For each of the first `n` of `tubes` that fits `t`, in their order, `t`
/// with that tube put at its end.
pub open spec fn extensions(
    edges: Seq<[usize; 2]>,
    tubes: Seq<Seq<usize>>,
    t: Seq<Seq<usize>>,
    n: int,
) -> Seq<Seq<Seq<usize>>>
    decreases n,
{
    if n <= 0 {
        Seq::empty()
    } else if fits(edges, t, tubes[n - 1]) {
        extensions(edges, tubes, t, n - 1).push(t.push(tubes[n - 1]))
    } else {
        extensions(edges, tubes, t, n - 1)
    }
}

/// `x` is `t` with one of `tubes` that fits it put at its end.
pub open spec fn is_extension(
    edges: Seq<[usize; 2]>,
    tubes: Seq<Seq<usize>>,
    t: Seq<Seq<usize>>,
    x: Seq<Seq<usize>>,
) -> bool {
    extension_among(edges, tubes, t, tubes.len() as int, x)
}

/// Whether two tubings list the same tubes in the same order.
pub fn tubing_eq(a: &Vec<Vec<usize>>, b: &Vec<Vec<usize>>) -> (r: bool)
    ensures
        r == (tubes_of(a@) == tubes_of(b@)),
{
    if a.len() != b.len() {
        return false;
    }
    let mut i: usize = 0;
    while i < a.len()
        invariant
            a.len() == b.len(),
            i <= a.len(),
            forall|k: int| 0 <= k < i ==> tubes_of(a@)[k] == tubes_of(b@)[k],
        decreases a.len() - i,
    {
        if !tube_eq(&a[i], &b[i]) {
            assert(tubes_of(a@)[i as int] != tubes_of(b@)[i as int]);
            return false;
        }
        i += 1;
    }
    assert(tubes_of(a@) =~= tubes_of(b@));
    true
}

/// Whether `tubing` occurs in `list`.
pub fn contains_tubing(list: &Vec<Vec<Vec<usize>>>, tubing: &Vec<Vec<usize>>) -> (r: bool)
    ensures
        r == tubings_of(list@).contains(tubes_of(tubing@)),
{
    let mut i: usize = 0;
    while i < list.len()
        invariant
            i <= list.len(),
            forall|k: int| 0 <= k < i ==> tubings_of(list@)[k] != tubes_of(tubing@),
        decreases list.len() - i,
    {
        if tubing_eq(&list[i], tubing) {
            assert(tubings_of(list@)[i as int] == tubes_of(tubing@));
            return true;
        }
        i += 1;
    }
    false
}

/// Adds `tubing` to `list` unless it is there.
pub fn insert_tubing(list: &mut Vec<Vec<Vec<usize>>>, tubing: Vec<Vec<usize>>)
    ensures
        tubings_of(final(list)@) == if tubings_of(old(list)@).contains(tubes_of(tubing@)) {
            tubings_of(old(list)@)
        } else {
            tubings_of(old(list)@).push(tubes_of(tubing@))
        },
        tubings_of(old(list)@).no_duplicates() ==> tubings_of(final(list)@).no_duplicates(),
{
    if !contains_tubing(list, &tubing) {
        let ghost before = tubings_of(list@);
        list.push(tubing);
        assert(tubings_of(list@) =~= before.push(tubes_of(tubing@)));
    }
}

/// A copy of a tubing.
pub fn copy_tubing(tubing: &Vec<Vec<usize>>) -> (r: Vec<Vec<usize>>)
    ensures
        tubes_of(r@) == tubes_of(tubing@),
{
    let mut r: Vec<Vec<usize>> = Vec::new();
    let mut i: usize = 0;
    while i < tubing.len()
        invariant
            i <= tubing.len(),
            tubes_of(r@) == tubes_of(tubing@).take(i as int),
        decreases tubing.len() - i,
    {
        let t = copy_tube(&tubing[i]);
        let ghost prior = tubes_of(r@);
        r.push(t);
        assert(tubes_of(r@) =~= prior.push(t@));
        assert(t@ == tubes_of(tubing@)[i as int]);
        assert(prior.push(t@) =~= tubes_of(tubing@).take(i + 1));
        i += 1;
    }
    assert(tubes_of(tubing@).take(tubing@.len() as int) =~= tubes_of(tubing@));
    r
}

/// Whether `tube` is compatible with every tube of `tubing`.
pub fn fits_tubing(tube: &Vec<usize>, tubing: &Vec<Vec<usize>>, g: &Graph) -> (r: bool)
    ensures
        r == fits(g.edges@, tubes_of(tubing@), tube@),
{
    let mut to_add = true;
    let mut j: usize = 0;
    while j < tubing.len()
        invariant
            j <= tubing.len(),
            to_add == forall|q: int|
                0 <= q < j ==> compatible(g.edges@, tube@, #[trigger] tubes_of(tubing@)[q]),
        decreases tubing.len() - j,
    {
        if !are_compatible(tube, &tubing[j], g) {
            assert(!compatible(g.edges@, tube@, tubes_of(tubing@)[j as int]));
            to_add = false;
        }
        j += 1;
    }
    to_add
}

/// The tubings that come of `partial_tubing` by putting one more tube of
/// the graph at its end, for each tube that is compatible with all of its
/// tubes. Finds the tubes of the graph first, unless they were found before.
pub fn compatible_with(partial_tubing: &Vec<Vec<usize>>, g: &mut Graph) -> (r: Vec<
    Vec<Vec<usize>>,
>)
    ensures
        final(g).vertices == old(g).vertices,
        final(g).edges == old(g).edges,
        final(g).tubings == old(g).tubings,
        final(g).tubes is Some,
        old(g).tubes is Some ==> final(g).tubes == old(g).tubes,
        old(g).tubes is None ==> is_tube_list(
            old(g).vertices@,
            old(g).edges@,
            tubes_of(final(g).tubes.unwrap()@),
        ),
        tubings_of(r@) == extensions(
            old(g).edges@,
            tubes_of(final(g).tubes.unwrap()@),
            tubes_of(partial_tubing@),
            final(g).tubes.unwrap()@.len() as int,
        ),
        forall|x: Seq<Seq<usize>>|
            tubings_of(r@).contains(x) <==> is_extension(
                old(g).edges@,
                tubes_of(final(g).tubes.unwrap()@),
                tubes_of(partial_tubing@),
                x,
            ),
{
    g.find_tubes();
    let mut result: Vec<Vec<Vec<usize>>> = Vec::new();
    let ghost edges = g.edges@;
    let ghost p = tubes_of(partial_tubing@);
    match &g.tubes {
        None => {},
        Some(tubes) => {
            let ghost ts = tubes_of(tubes@);
            let mut i: usize = 0;
            while i < tubes.len()
                invariant
                    i <= tubes.len(),
                    edges == g.edges@,
                    ts == tubes_of(tubes@),
                    p == tubes_of(partial_tubing@),
                    tubings_of(result@) == extensions(edges, ts, p, i as int),
                    forall|x: Seq<Seq<usize>>|
                        tubings_of(result@).contains(x) <==> extension_among(
                            edges,
                            ts,
                            p,
                            i as int,
                            x,
                        ),
                decreases tubes.len() - i,
            {
                let ghost before = tubings_of(result@);
                let ghost c = ts[i as int];
                assert(c == tubes@[i as int]@);
                assert(forall|x: Seq<Seq<usize>>|
                    before.contains(x) <==> extension_among(edges, ts, p, i as int, x));
                let ok = fits_tubing(&tubes[i], partial_tubing, g);
                if ok {
                    let mut temp = copy_tubing(partial_tubing);
                    let t = copy_tube(&tubes[i]);
                    let ghost prior = tubes_of(temp@);
                    temp.push(t);
                    assert(tubes_of(temp@) =~= prior.push(c));
                    result.push(temp);
                    assert(tubings_of(result@) =~= before.push(p.push(c)));
                }
                proof {
                    let after = tubings_of(result@);
                    assert forall|x: Seq<Seq<usize>>| after.contains(x) <==> extension_among(
                        edges,
                        ts,
                        p,
                        i + 1,
                        x,
                    ) by {
                        if after.contains(x) {
                            if before.contains(x) {
                                let m = choose|m: int|
                                    0 <= m < i && m < ts.len() && fits(edges, p, #[trigger] ts[m])
                                        && x == p.push(ts[m]);
                                assert(m < i + 1);
                            } else {
                                let q = choose|q: int| 0 <= q < after.len() && after[q] == x;
                                if q < before.len() {
                                    assert(before[q] == x);
                                }
                                assert(fits(edges, p, ts[i as int]) && x == p.push(ts[i as int]));
                            }
                        }
                        if extension_among(edges, ts, p, i + 1, x) {
                            let m = choose|m: int|
                                0 <= m < i + 1 && m < ts.len() && fits(edges, p, #[trigger] ts[m])
                                    && x == p.push(ts[m]);
                            if m < i {
                                assert(extension_among(edges, ts, p, i as int, x));
                                assert(before.contains(x));
                                let q = choose|q: int| 0 <= q < before.len() && before[q] == x;
                                assert(after[q] == x);
                            } else {
                                assert(after[after.len() - 1] == x);
                            }
                        }
                    }
                }
                i += 1;
            }
        },
    }
    result
}

} // verus!
