//! The trusted boundary to the `rand` crate. The simulation takes a caller
//! supplied `StdRng`, so runs are reproducible from a seed; nothing is
//! assumed about the values drawn beyond their range and distinctness.

use vstd::prelude::*;

verus! {

#[verifier::external_type_specification]
#[verifier::external_body]
pub struct ExStdRng(rand::rngs::StdRng);

/// Relies on rand's `Rng::gen_range` over `0..bound`: it samples a value of
/// the range, which is non-empty because `bound > 0`.
#[verifier::external_body]
pub(crate) fn gen_source_index(rng: &mut rand::rngs::StdRng, bound: u16) -> (r: u16)
    requires
        bound > 0,
    ensures
        r < bound,
{
    rand::Rng::gen_range(rng, 0..bound)
}

/// Relies on rand's `IteratorRandom::choose_multiple` over `0..n`: it fills
/// a reservoir with `amount` of the iterator's values, taking each position
/// of the iterator at most once, so the result holds `amount` distinct
/// values below `n` whenever `amount <= n`.
#[verifier::external_body]
pub(crate) fn choose_distinct_sources(
    rng: &mut rand::rngs::StdRng,
    n: u16,
    amount: u16,
) -> (r: Vec<u16>)
    requires
        amount <= n,
    ensures
        r@.len() == amount,
        forall|i: int| 0 <= i < r@.len() ==> r@[i] < n,
        forall|i: int, j: int| 0 <= i < j < r@.len() ==> r@[i] != r@[j],
{
    rand::seq::IteratorRandom::choose_multiple(0..n, rng, amount as usize)
}

} // verus!
