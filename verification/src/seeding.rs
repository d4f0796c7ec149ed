//! Deterministic seeding: mix a chunk index and a per-layer salt into a
//! 64-bit seed, and derive a stream of pseudo-random draws from it.
//!
//! Everything here is fixed-width `u64` arithmetic with wrapping semantics,
//! so the same index and salt give the same draws on every platform. The
//! mixing finalizer and the additive stream constant are the splitmix
//! construction.

use vstd::prelude::*;

use crate::vec2::Point2d;

verus! {

/// Additive constant of the splitmix stream.
pub const SPLITMIX_GAMMA: u64 = 0x9E3779B97F4A7C15;

/// The splitmix finalizer: a well-mixing bijection on 64-bit words.
pub open spec fn mix64(z0: u64) -> u64 {
    let z1 = (z0 ^ (z0 >> 30)).wrapping_mul(0xBF58476D1CE4E5B9u64);
    let z2 = (z1 ^ (z1 >> 27)).wrapping_mul(0x94D049BB133111EBu64);
    z2 ^ (z2 >> 31)
}

fn mix64_exec(z0: u64) -> (r: u64)
    ensures
        r == mix64(z0),
{
    let z1 = (z0 ^ (z0 >> 30)).wrapping_mul(0xBF58476D1CE4E5B9u64);
    let z2 = (z1 ^ (z1 >> 27)).wrapping_mul(0x94D049BB133111EBu64);
    z2 ^ (z2 >> 31)
}

/// A world coordinate reinterpreted as an unsigned 64-bit word
/// (two's complement, little-endian independent).
pub open spec fn coord_bits(x: i64) -> u64 {
    if x >= 0 {
        x as u64
    } else {
        (x + 0x1_0000_0000_0000_0000) as u64
    }
}

fn coord_bits_exec(x: i64) -> (r: u64)
    ensures
        r == coord_bits(x),
{
    if x >= 0 {
        x as u64
    } else {
        ((x as i128) + 0x1_0000_0000_0000_0000i128) as u64
    }
}

/// The seed of chunk `index` under `salt`: successive absorption of the two
/// coordinates into the mixed state.
pub open spec fn seed_for(index: Point2d, salt: u64) -> u64 {
    mix64(mix64(mix64(salt) ^ coord_bits(index.x)) ^ coord_bits(index.y))
}

pub fn seed_for_exec(index: &Point2d, salt: u64) -> (r: u64)
    ensures
        r == seed_for(*index, salt),
{
    let a = mix64_exec(salt);
    let b = mix64_exec(a ^ coord_bits_exec(index.x));
    mix64_exec(b ^ coord_bits_exec(index.y))
}

/// The `n`-th state of the splitmix stream started at `seed`.
pub open spec fn stream_state(seed: u64, n: nat) -> u64
    decreases n,
{
    if n == 0 {
        seed
    } else {
        stream_state(seed, (n - 1) as nat).wrapping_add(SPLITMIX_GAMMA)
    }
}

/// The `n`-th draw of the stream (the first draw is `draw(seed, 0)`).
pub open spec fn draw(seed: u64, n: nat) -> u64 {
    mix64(stream_state(seed, n + 1))
}

/// Advance the stream by one step and produce a draw.
pub fn next_draw(state: &mut u64) -> (r: u64)
    ensures
        *final(state) == old(state).wrapping_add(SPLITMIX_GAMMA),
        r == mix64(*final(state)),
{
    *state = state.wrapping_add(SPLITMIX_GAMMA);
    mix64_exec(*state)
}

} // verus!
