//! The random source: rltk's xorshift generator, seen through the few calls
//! the layout code makes.
use rltk::RandomNumberGenerator;
use vstd::prelude::*;

verus! {

/// rltk's random number generator, carried through opaquely.
#[verifier::external_type_specification]
#[verifier::external_body]
pub struct ExRandomNumberGenerator(RandomNumberGenerator);

/// Relies on `RandomNumberGenerator::new`: a generator seeded from the
/// system's entropy source. Nothing is known of what it will draw.
#[verifier::external_body]
pub(crate) fn fresh_rng() -> (r: RandomNumberGenerator) {
    RandomNumberGenerator::new()
}

/// Relies on `RandomNumberGenerator::range`, which is `gen_range(lo..hi)`:
/// a value in `[lo, hi)`; it panics on an empty range.
#[verifier::external_body]
pub(crate) fn draw_range(rng: &mut RandomNumberGenerator, lo: i32, hi: i32) -> (r: i32)
    requires
        lo < hi,
    ensures
        lo <= r < hi,
{
    rng.range(lo, hi)
}

/// Relies on `RandomNumberGenerator::roll_dice`: the sum of `n` draws from
/// `range(1, die_type + 1)`, so between `n` and `n * die_type`.
#[verifier::external_body]
pub(crate) fn roll_dice(rng: &mut RandomNumberGenerator, n: i32, die_type: i32) -> (r: i32)
    requires
        1 <= n,
        1 <= die_type < i32::MAX,
        n * die_type <= i32::MAX,
    ensures
        n <= r <= n * die_type,
{
    rng.roll_dice(n, die_type)
}

} // verus!
