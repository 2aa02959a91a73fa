//! Draws from a seeded fastrand generator, modelled by the generator's state.
use vstd::prelude::*;

verus! {

/// The value that a fastrand generator in state `state` draws below `bound`,
/// and the generator's state after the draw.
pub uninterp spec fn seeded_draw(state: u64, bound: u64) -> (u64, u64);

/// Relies on fastrand's `Rng::u64` over `0..bound`, which returns a value
/// below `bound` (it panics on an empty range, hence `bound >= 1`), computed
/// from the generator's state alone. The generator is its `u64` state:
/// `Rng::with_seed` sets it and `Rng::get_seed` reads it back.
#[verifier::external_body]
pub(crate) fn draw_below(state: u64, bound: u64) -> (r: (u64, u64))
    requires
        bound >= 1,
    ensures
        r == seeded_draw(state, bound),
        r.0 < bound,
{
    let mut rng = fastrand::Rng::with_seed(state);
    let value = rng.u64(0..bound);
    (value, rng.get_seed())
}

/// Relies on fastrand's `Rng::new`, which seeds a generator from the
/// thread-local one: the seed is arbitrary, nothing is promised of it.
#[verifier::external_body]
pub(crate) fn fresh_seed() -> (r: u64) {
    fastrand::Rng::new().get_seed()
}

} // verus!
