//! The calls into other crates and into the parts of the standard library
//! that are taken on trust: each contract here is believed, not proved.

use vstd::prelude::*;
use itertools::Itertools;
use rand::seq::SliceRandom;
use rand::Rng;
use rayon::iter::{IntoParallelRefIterator, ParallelIterator};
use crate::flip::Flipgraph;
use crate::search::Fhp;
use crate::order::lex_form_of;
use crate::parts::{ascending, is_combination};
use crate::tube::tubes_of;

verus! {

/// `Itertools::combinations`, collected. Trusted: the result holds every
/// choice of `k` positions of `items`, each as the items at those positions
/// in their order, and nothing else.
#[verifier::external_body]
pub(crate) fn combinations(items: &Vec<usize>, k: usize) -> (r: Vec<Vec<usize>>)
    ensures
        forall|c: Seq<usize>| tubes_of(r@).contains(c) <==> is_combination(items@, k as nat, c),
{
    items.clone().into_iter().combinations(k).collect()
}

/// The standard `sort` of a slice of integers. Trusted: afterwards the
/// items are the same, each as often as before, and in rising order.
#[verifier::external_body]
pub(crate) fn sort_vertices(v: &mut Vec<usize>)
    ensures
        ascending(final(v)@),
        final(v)@.to_multiset() == old(v)@.to_multiset(),
{
    v.sort();
}

/// The standard `sort` of a slice of vectors of integers, which compares
/// them in dictionary order. Trusted: afterwards the tubes are the same,
/// each as often as before, and in that order.
#[verifier::external_body]
pub(crate) fn sort_tubes(t: &mut Vec<Vec<usize>>)
    ensures
        lex_form_of(tubes_of(old(t)@), tubes_of(final(t)@)),
{
    t.sort();
}

/// `Rng::gen_range` on the thread's generator, over `0..n`. Trusted: the
/// result lies below `n`. The call panics on an empty range, which the
/// precondition leaves out.
#[verifier::external_body]
pub(crate) fn random_index(n: usize) -> (r: usize)
    requires
        n > 0,
    ensures
        r < n,
{
    rand::thread_rng().gen_range(0..n)
}

/// `SliceRandom::shuffle` with the thread's generator. Trusted: the items
/// are rearranged, none is added, lost or changed.
#[verifier::external_body]
pub(crate) fn shuffle(v: &mut Vec<usize>)
    ensures
        final(v)@.to_multiset() == old(v)@.to_multiset(),
{
    v.shuffle(&mut rand::thread_rng());
}

/// Rayon's `par_iter`, `map` and `collect` into a `Result`, over `tries`
/// trials. Trusted: an `Err` holds what one of the trials returned as
/// `Err`; an `Ok` comes only where every trial returned `Ok`, and holds as
/// many items as there were trials, so that with one trial or more some
/// trial returned `Ok`, which it does only where a walk got stuck.
#[verifier::external_body]
pub(crate) fn parallel_trials(fg: &Flipgraph, tries: usize, cycle: bool) -> (r: Result<
    Vec<usize>,
    Fhp,
>)
    requires
        fg.wf(),
        fg.vertices@.len() > 0,
    ensures
        match r {
            Ok(v) => v@.len() == tries && (tries > 0 ==> fg.gets_stuck(cycle)),
            Err(p) => tries > 0 && if cycle {
                fg.is_cycle_witness(p)
            } else {
                fg.is_path_witness(p)
            },
        },
{
    (0..tries).collect::<Vec<_>>().par_iter().map(|_| fg.try_for_one(cycle)).collect()
}

} // verus!
