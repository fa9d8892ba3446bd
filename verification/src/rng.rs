//! The randomness the generator draws from.
//!
//! Every probabilistic decision in the generator consumes one draw from a
//! [`RandomSource`]: a plain pair of a seed and a counter. Each draw derives a
//! fresh per-draw seed by mixing the counter into the source seed and hands it
//! to the outside generator, so the whole stream is a function of the source
//! value alone. That keeps generation reproducible: equal sources draw equal
//! streams, which the rest of the library lifts to whole floor plans.

use vstd::prelude::*;
use rand::Rng;
use rand::SeedableRng;

verus! {

/// Multiplier used to spread consecutive counters over the seed space
/// (the 64-bit golden-ratio constant).
pub const MIX_MULT: u64 = 0x9E3779B97F4A7C15;

/// The value that one draw with this per-draw seed and this exclusive upper
/// bound returns. It is a fixed function of its arguments: the outside
/// generator is seeded from `seed` alone and sampled once.
pub uninterp spec fn std_draw_of(seed: u64, bound: u64) -> u64;

/// Relies on `rand::rngs::StdRng::seed_from_u64` and `rand::Rng::gen_range`:
/// seeding is a pure function of the `u64` seed, and one uniform sample from
/// `0..bound` is a pure function of the generator state and the bound, so the
/// result depends on `seed` and `bound` alone and lies below `bound`
/// (`gen_range` returns a value inside the non-empty range it is given).
#[verifier::external_body]
fn std_draw(seed: u64, bound: u64) -> (r: u64)
    requires
        1 <= bound,
    ensures
        r == std_draw_of(seed, bound),
        r < bound,
{
    let mut g = rand::rngs::StdRng::seed_from_u64(seed);
    g.gen_range(0..bound)
}

/// Relies on `rand::random`: one value drawn from the thread-local generator.
/// Nothing is promised of it; it only seeds a [`RandomSource`] when the caller
/// wants an arbitrary plan rather than a reproducible one.
#[verifier::external_body]
fn entropy_seed() -> (r: u64) {
    rand::random::<u64>()
}

/// An explicit random source: a seed plus the number of draws already made.
/// Two equal sources yield equal draws forever, which is what makes seeded
/// generation reproducible.
#[derive(Clone, Copy, Debug, PartialEq, Eq, Structural)]
pub struct RandomSource {
    pub seed: u64,
    pub counter: u64,
}

/// The per-draw seed: the source seed displaced by the draw counter.
pub open spec fn spec_mix(seed: u64, counter: u64) -> u64 {
    (((seed as int) + (counter as int) * (MIX_MULT as int)) % 0x1_0000_0000_0000_0000) as u64
}

fn mix(seed: u64, counter: u64) -> (r: u64)
    ensures
        r == spec_mix(seed, counter),
{
    proof {
        assert((counter as int) * (MIX_MULT as int) <= 0xFFFF_FFFF_FFFF_FFFF * (MIX_MULT as int))
            by (nonlinear_arith)
            requires
                0 <= counter as int <= 0xFFFF_FFFF_FFFF_FFFF,
                0 < MIX_MULT as int,
        ;
    }
    let wide: u128 = (seed as u128) + (counter as u128) * (MIX_MULT as u128);
    (wide % 0x1_0000_0000_0000_0000) as u64
}

impl RandomSource {
    /// The source after one draw: same seed, next counter (wrapping).
    pub open spec fn spec_advanced(self) -> RandomSource {
        RandomSource {
            seed: self.seed,
            counter: if self.counter == u64::MAX {
                0
            } else {
                (self.counter + 1) as u64
            },
        }
    }

    /// The pair (value, next source) that one draw below `bound` produces.
    /// The outside draw already lies below the bound; the reduction makes
    /// that plain to every reader of this function.
    pub open spec fn spec_next_below(self, bound: u64) -> (u64, RandomSource) {
        (
            (std_draw_of(spec_mix(self.seed, self.counter), bound) as int % bound as int) as u64,
            self.spec_advanced(),
        )
    }

    /// The pair (value, next source) for a draw from the inclusive range
    /// `lo..=hi`.
    pub open spec fn spec_next_in_range(self, lo: u64, hi: u64) -> (u64, RandomSource) {
        let (v, next) = self.spec_next_below((hi - lo + 1) as u64);
        ((lo + v) as u64, next)
    }

    /// The pair (accepted, next source) for a coin that comes up true with
    /// probability `num / den` (a numerator at or above `den` always accepts).
    pub open spec fn spec_coin(self, num: u64, den: u64) -> (bool, RandomSource) {
        let (v, next) = self.spec_next_below(den);
        (v < num, next)
    }

    pub fn new(seed: u64) -> (r: RandomSource)
        ensures
            r == (RandomSource { seed, counter: 0 }),
    {
        RandomSource { seed, counter: 0 }
    }

    /// A source seeded from ambient entropy, for callers that do not need
    /// reproducibility.
    pub fn from_entropy() -> (r: RandomSource)
        ensures
            r.counter == 0,
    {
        RandomSource { seed: entropy_seed(), counter: 0 }
    }

    /// Draw a value uniform in `0..bound`.
    pub fn next_below(&mut self, bound: u64) -> (r: u64)
        requires
            1 <= bound,
        ensures
            (r, *final(self)) == old(self).spec_next_below(bound),
            r < bound,
    {
        let v = std_draw(mix(self.seed, self.counter), bound);
        proof {
            assert(v as int % bound as int == v as int) by (nonlinear_arith)
                requires
                    0 <= v as int,
                    (v as int) < bound as int,
            ;
        }
        self.counter = if self.counter == u64::MAX {
            0
        } else {
            self.counter + 1
        };
        v
    }

    /// Draw a value uniform in the inclusive range `lo..=hi`.
    pub fn next_in_range(&mut self, lo: u64, hi: u64) -> (r: u64)
        requires
            lo <= hi,
            hi - lo < u64::MAX,
        ensures
            (r, *final(self)) == old(self).spec_next_in_range(lo, hi),
            lo <= r <= hi,
    {
        let v = self.next_below(hi - lo + 1);
        lo + v
    }

    /// Flip a coin that accepts with probability `num / den`.
    pub fn coin(&mut self, num: u64, den: u64) -> (accepted: bool)
        requires
            1 <= den,
        ensures
            (accepted, *final(self)) == old(self).spec_coin(num, den),
    {
        let v = self.next_below(den);
        v < num
    }
}

} // verus!
