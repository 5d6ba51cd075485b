//! The random source, a seedable generator from the rand crate, and the clock
//! that bounds a search.
use vstd::prelude::*;
use rand::{Rng, SeedableRng};
use rand::rngs::StdRng;
use rand::seq::SliceRandom;
use std::time::{Duration, Instant};
use crate::cards::Card;

verus! {

#[verifier::external_type_specification]
#[verifier::external_body]
pub struct ExStdRng(StdRng);

/// Relies on rand's `Rng::gen_range`, which returns a value of the half-open
/// range `0..n` and panics only on an empty range.
#[verifier::external_body]
pub(crate) fn below(rng: &mut StdRng, n: usize) -> (r: usize)
    requires
        n > 0,
    ensures
        r < n,
{
    rng.gen_range(0..n)
}

/// Relies on rand's `SliceRandom::shuffle`, which permutes the slice in place by
/// swaps.
#[verifier::external_body]
pub(crate) fn shuffle_cards(cards: &mut Vec<Card>, rng: &mut StdRng)
    ensures
        final(cards)@.to_multiset() == old(cards)@.to_multiset(),
{
    cards.shuffle(rng)
}

/// Relies on rand's `SeedableRng::seed_from_u64` for `StdRng`: a generator whose
/// outputs are fixed by the seed.
#[verifier::external_body]
pub(crate) fn seeded_rng(seed: u64) -> StdRng {
    StdRng::seed_from_u64(seed)
}

/// A seed for a further generator, drawn from `rng`.
pub(crate) fn next_seed(rng: &mut StdRng) -> u64 {
    below(rng, usize::MAX) as u64
}

#[verifier::external_type_specification]
#[verifier::external_body]
pub struct ExInstant(Instant);

/// Relies on `std::time::Instant::now`: the current instant; nothing is known of it.
#[verifier::external_body]
pub(crate) fn now() -> Instant {
    Instant::now()
}

/// Relies on `std::time::Instant::elapsed`: the time since `start`; nothing is
/// known of it.
#[verifier::external_body]
pub(crate) fn elapsed(start: &Instant) -> Duration {
    start.elapsed()
}

/// Relies on `std::time::Duration::as_millis`: whole milliseconds of `d`.
#[verifier::external_body]
pub(crate) fn millis(d: &Duration) -> u128 {
    d.as_millis()
}

/// Whether fewer than `budget` milliseconds have passed since `start`.
pub(crate) fn within(start: &Instant, budget: usize) -> bool {
    let spent = elapsed(start);
    millis(&spent) < budget as u128
}

} // verus!
