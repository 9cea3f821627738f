//! Synthetic latency generation.
//!
//! Latencies follow a heavy-tailed Pareto distribution with unit scale and
//! unit shape, whose inverse cumulative distribution is simply `scale / u`
//! for a uniform `u` in (0, 1]. The uniform draw comes from a xorshift
//! pseudo-random generator as raw 64-bit output, and the inversion is done
//! in fixed-point integer arithmetic, scaled by 10,000 into whole
//! microseconds. Draws are kept only when they fall strictly inside a
//! plausible web-service envelope of 15 milliseconds to 1 second. The
//! generator is seeded either from entropy or, for reproducible runs, from a
//! caller-supplied seed.

use vstd::prelude::*;

verus! {

#[verifier::external_type_specification]
#[verifier::external_body]
pub struct ExXorShiftRng(rand_xorshift::XorShiftRng);

/// Lower cutoff (exclusive) of the accepted latency range, in microseconds.
pub const MIN_LATENCY_MICROS: u64 = 15_000;

/// Upper cutoff (exclusive) of the accepted latency range, in microseconds.
pub const MAX_LATENCY_MICROS: u64 = 1_000_000;

/// The unit scale: one Pareto unit is 10,000 microseconds.
pub const UNIT_SCALE_MICROS: u64 = 10_000;

/// How many draws may be attempted per requested sample before generation
/// gives up and returns fewer samples than asked for.
pub const DRAW_ATTEMPT_FACTOR: usize = 10;

/// Relies on rand's `SeedableRng::from_entropy` for `XorShiftRng`: a
/// generator seeded from the operating system's entropy source (it aborts if
/// the system cannot supply entropy). Nothing can be promised of the state
/// it starts in.
#[verifier::external_body]
pub fn rng_from_entropy() -> rand_xorshift::XorShiftRng {
    rand::SeedableRng::from_entropy()
}

/// Relies on rand's `SeedableRng::seed_from_u64` for `XorShiftRng`: a
/// generator in a state derived from the seed alone, for reproducible runs;
/// it never panics, a zero-derived seed is mapped to a fixed non-zero state.
#[verifier::external_body]
pub fn rng_from_seed(seed: u64) -> rand_xorshift::XorShiftRng {
    rand::SeedableRng::seed_from_u64(seed)
}

/// Relies on rand_xorshift's `RngCore::next_u64`: the generator's next 64
/// raw bits, advancing its internal state. Nothing can be promised of a
/// pseudo-random value.
#[verifier::external_body]
pub fn rng_next_u64(rng: &mut rand_xorshift::XorShiftRng) -> u64 {
    rand::RngCore::next_u64(rng)
}

/// The fixed-point Pareto inversion: raw bits `u` stand for the uniform
/// value `(u + 1) / 2^64` in (0, 1], and the draw is `10_000 / uniform`
/// microseconds, truncated, saturating at the largest 64-bit value.
pub open spec fn pareto_micros_of(u: u64) -> u64 {
    let q = (UNIT_SCALE_MICROS * 0x10000000000000000) as nat / (u + 1) as nat;
    if q <= u64::MAX {
        q as u64
    } else {
        u64::MAX
    }
}

/// Computes `pareto_micros_of`: one heavy-tailed latency draw from raw
/// generator bits. The result is never below the 10,000-microsecond unit
/// scale.
pub fn pareto_micros(u: u64) -> (r: u64)
    ensures
        r == pareto_micros_of(u),
        r >= UNIT_SCALE_MICROS,
{
    let q: u128 = (UNIT_SCALE_MICROS as u128) * 0x10000000000000000u128 / (u as u128 + 1);
    proof {
        vstd::arithmetic::div_mod::lemma_div_is_ordered_by_denominator(
            (UNIT_SCALE_MICROS as u128 * 0x10000000000000000u128) as int,
            (u as u128 + 1) as int,
            0x10000000000000000,
        );
    }
    if q > u64::MAX as u128 {
        u64::MAX
    } else {
        q as u64
    }
}

/// Draws heavy-tailed latencies and keeps those strictly inside the interval
/// from 15,000 to 1,000,000 microseconds, until `count` values are accepted
/// or the draw budget (ten attempts per requested sample) runs out. Advances
/// the generator's state; every returned value lies in the accepted range.
pub fn generate(rng: &mut rand_xorshift::XorShiftRng, count: usize) -> (pts: Vec<u64>)
    ensures
        pts@.len() <= count,
        forall|i: int|
            0 <= i < pts@.len() ==> MIN_LATENCY_MICROS < (#[trigger] pts@[i])
                < MAX_LATENCY_MICROS,
{
    let mut pts: Vec<u64> = Vec::new();
    let budget: usize = if count <= usize::MAX / DRAW_ATTEMPT_FACTOR {
        count * DRAW_ATTEMPT_FACTOR
    } else {
        usize::MAX
    };
    let mut attempts: usize = 0;
    while pts.len() < count && attempts < budget
        invariant
            pts@.len() <= count,
            forall|i: int|
                0 <= i < pts@.len() ==> MIN_LATENCY_MICROS < (#[trigger] pts@[i])
                    < MAX_LATENCY_MICROS,
        decreases budget - attempts,
    {
        let u = rng_next_u64(rng);
        let v = pareto_micros(u);
        if v > MIN_LATENCY_MICROS && v < MAX_LATENCY_MICROS {
            pts.push(v);
        }
        attempts = attempts + 1;
    }
    pts
}

} // verus!
