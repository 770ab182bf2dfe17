//! The source of randomness for tile placement: a capability that callers
//! supply, and a default one backed by the thread-local generator of `rand`.

use rand::rngs::ThreadRng;
use rand::Rng;
use std::ops::Range;
use vstd::prelude::*;

verus! {

/// Draws from [0, 1) are fractions over this scale, 2^53: a draw `n` stands
/// for `n / DRAW_SCALE`, the resolution of a uniform `f64` in [0, 1).
pub const DRAW_SCALE: u64 = 9007199254740992;

/// A source of uniform random numbers.
pub trait RandomNumberGenerator {
    /// A uniform draw from [0, 1), given as the numerator `n` of the
    /// fraction `n / DRAW_SCALE`.
    fn next_fraction(&mut self) -> (r: u64)
        ensures
            r < DRAW_SCALE,
    ;

    /// A uniform integer of the half-open range.
    fn next_in_range(&mut self, range: Range<i32>) -> (r: i32)
        requires
            range.start < range.end,
        ensures
            range.start <= r < range.end,
    ;
}

#[verifier::external_type_specification]
#[verifier::external_body]
pub struct ExThreadRng(ThreadRng);

/// Relies on rand::thread_rng, which hands out the calling thread's
/// generator; nothing is known of the numbers it will give.
pub assume_specification[ rand::thread_rng ]() -> ThreadRng;

/// Relies on rand's `Rng::gen` for `u64`, which may give any value.
#[verifier::external_body]
fn gen_u64(rng: &mut ThreadRng) -> u64 {
    rng.gen::<u64>()
}

/// Relies on rand's `Rng::gen_range`, which gives a value of the half-open
/// range and panics on an empty one.
#[verifier::external_body]
fn gen_in_range(rng: &mut ThreadRng, range: Range<i32>) -> (r: i32)
    requires
        range.start < range.end,
    ensures
        range.start <= r < range.end,
{
    rng.gen_range(range)
}

/// Random numbers from the thread-local generator of `rand`.
pub struct SimpleGenerator {
    rng: ThreadRng,
}

impl RandomNumberGenerator for SimpleGenerator {
    /// The top 53 bits of a uniform `u64`, as `rand` does for an `f64`.
    fn next_fraction(&mut self) -> (r: u64) {
        let bits = gen_u64(&mut self.rng);
        let r = bits >> 11u64;
        assert(bits >> 11u64 < 9007199254740992u64) by (bit_vector);
        r
    }

    fn next_in_range(&mut self, range: Range<i32>) -> (r: i32) {
        gen_in_range(&mut self.rng, range)
    }
}

/// A generator backed by the calling thread's `rand` generator.
pub fn create_simple_generator() -> SimpleGenerator {
    SimpleGenerator { rng: rand::thread_rng() }
}

} // verus!
