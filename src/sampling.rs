//! Random choices, drawn from the thread-local generator of `rand`.
use vstd::prelude::*;

verus! {

/// Relies on `rand::Rng::gen_range` over `0..n` with `rand::thread_rng`: a
/// value below `n`; the range must not be empty.
#[verifier::external_body]
pub(crate) fn random_below(n: usize) -> (r: usize)
    requires
        n > 0,
    ensures
        r < n,
{
    rand::Rng::gen_range(&mut rand::thread_rng(), 0..n)
}

/// Relies on `rand::seq::index::sample` with `rand::thread_rng`: exactly
/// `amount` distinct indices below `length`; it panics when `amount > length`.
#[verifier::external_body]
pub(crate) fn sample_indices(length: usize, amount: usize) -> (r: Vec<usize>)
    requires
        amount <= length,
    ensures
        r@.len() == amount,
        forall|k: int| 0 <= k < r@.len() ==> r@[k] < length,
        forall|a: int, b: int| 0 <= a < b < r@.len() ==> r@[a] != r@[b],
{
    rand::seq::index::sample(&mut rand::thread_rng(), length, amount).into_vec()
}

/// Relies on `rand::Rng::gen` with `rand::thread_rng`: any `i64`.
#[verifier::external_body]
pub(crate) fn random_i64() -> (r: i64) {
    rand::Rng::gen::<i64>(&mut rand::thread_rng())
}

/// Relies on `rand_distr::Uniform::new_inclusive` sampled with a
/// `rand_chacha::ChaChaRng` seeded from the operating system: a value in
/// `lower..=upper`; it panics when `lower > upper`.
#[verifier::external_body]
pub(crate) fn uniform_inclusive(lower: u64, upper: u64) -> (r: u64)
    requires
        lower <= upper,
    ensures
        lower <= r <= upper,
{
    let mut rng = <rand_chacha::ChaChaRng as rand::SeedableRng>::from_entropy();
    rand_distr::Distribution::sample(&rand_distr::Uniform::new_inclusive(lower, upper), &mut rng)
}

} // verus!
