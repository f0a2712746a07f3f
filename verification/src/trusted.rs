//! The crate's trusted boundary: declarations of items of the `rand` and
//! `itertools` crates, with the contracts the verified code relies on.

use itertools::Itertools;
use vstd::prelude::*;

verus! {

/// `rand::rngs::ThreadRng`, declared so that verified code can hold and
/// pass the thread-local generator.
#[verifier::external_type_specification]
#[verifier::external_body]
pub struct ExThreadRng(rand::rngs::ThreadRng);

/// Relies on `rand::thread_rng`: a handle to the thread-local generator.
/// Nothing is promised of the values it will produce.
#[verifier::external_body]
pub fn fresh_rng() -> rand::rngs::ThreadRng {
    rand::thread_rng()
}

/// Relies on `rand::Rng::gen_range` over the inclusive range `1..=k`: the
/// draw lies in that range (the call panics on an empty range, which
/// `1 <= k` rules out).  Which value comes back is not promised.
#[verifier::external_body]
pub fn rand_color(rng: &mut rand::rngs::ThreadRng, k: usize) -> (c: usize)
    requires
        1 <= k,
    ensures
        1 <= c <= k,
{
    rand::Rng::gen_range(rng, 1..=k)
}

/// Relies on `itertools::Itertools::unique`: it yields one representative
/// per distinct value, so the count is the cardinality of the set of
/// values.
#[verifier::external_body]
pub fn distinct_count(v: &Vec<usize>) -> (k: usize)
    ensures
        k == v@.to_set().len(),
{
    v.iter().unique().count()
}

/// Relies on `itertools::Itertools::sorted_unstable_by_key` with the
/// pair's first component as key: the result is a permutation of the
/// input, ascending in that component.
#[verifier::external_body]
pub fn sort_pairs_by_first(v: Vec<(usize, usize)>) -> (r: Vec<(usize, usize)>)
    ensures
        r@.len() == v@.len(),
        r@.to_multiset() == v@.to_multiset(),
        forall|a: int, b: int|
            0 <= a < b < r@.len() ==> (#[trigger] r@[a]).0 <= (#[trigger] r@[b]).0,
{
    v.into_iter().sorted_unstable_by_key(|p: &(usize, usize)| p.0).collect()
}

} // verus!
