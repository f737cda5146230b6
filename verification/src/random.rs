//! Random draws and the ratios that they are held against.
//!
//! The generator's state is a plain number that the simulation carries along. A draw maps a state
//! to a value and the next state, so equal states draw equal values.

use vstd::prelude::*;

verus! {

/// A ratio of packets, or a draw from `0..1`.
///
/// Holds the bit pattern of a non-negative double. The numeric order of such doubles is the order
/// of their bit patterns, so ratios can be compared without arithmetic on them.
#[derive(Clone, Copy, PartialEq, Eq, Structural, Debug)]
pub struct Ratio {
    pub bits: u64,
}

impl Ratio {
    /// The ratio `0`.
    pub fn zero() -> (r: Ratio)
        ensures
            r.bits == 0,
    {
        Ratio { bits: 0 }
    }

    /// The draw `self` falls under `ratio`.
    pub open spec fn spec_is_below(self, ratio: Ratio) -> bool {
        self.bits < ratio.bits
    }

    /// Whether the draw `self` falls under `ratio`.
    pub fn is_below(&self, ratio: Ratio) -> (r: bool)
        ensures
            r == self.spec_is_below(ratio),
    {
        self.bits < ratio.bits
    }
}

/// The third ratio can be the sum of the first two: it is no smaller than the first one, and equal
/// to it where the second one is zero.
pub open spec fn ratios_fit(first: Ratio, second: Ratio, sum: Ratio) -> bool {
    &&& first.bits <= sum.bits
    &&& second.bits == 0 ==> sum == first
}

/// A draw from `0..1`, and the state of the generator after it.
#[derive(Clone, Copy, PartialEq, Eq, Structural, Debug)]
pub struct Roll {
    pub value: Ratio,
    pub rng_state: u64,
}

/// The state after drawing 128 bits from a generator in the given state, and the bits.
pub uninterp spec fn drawn_u128(rng_state: u64) -> (u64, u128);

/// Draws 128 bits with `fastrand::Rng::u128` over the full range, from a generator that
/// `fastrand::Rng::with_seed` puts into the given state; `fastrand::Rng::get_seed` then reads the
/// state back. The generator holds nothing but its state, so both results are functions of it.
#[verifier::external_body]
pub(crate) fn draw_u128(rng_state: u64) -> (r: (u64, u128))
    ensures
        r == drawn_u128(rng_state),
{
    let mut rng = fastrand::Rng::with_seed(rng_state);
    let bits = rng.u128(..);
    (rng.get_seed(), bits)
}

/// Draws two seeds with `fastrand::Rng::u64` over the full range, from a generator that
/// `fastrand::Rng::new` seeds from a source of entropy. Nothing can be said of the seeds.
#[verifier::external_body]
pub(crate) fn entropy_seeds() -> (seeds: (u64, u64)) {
    let mut rng = fastrand::Rng::new();
    (rng.u64(..), rng.u64(..))
}

} // verus!
