use vstd::prelude::*;

use tinyrand::{Probability, Rand, RandRange, Wyrand};

verus! {

/// tinyrand's default generator, carried through as an opaque value.
#[verifier::external_type_specification]
#[verifier::external_body]
pub struct ExWyrand(Wyrand);

/// tinyrand's probability in `[0, 1]`, carried through as an opaque value.
#[verifier::external_type_specification]
#[verifier::external_body]
pub struct ExProbability(Probability);

/// Relies on tinyrand's `RandRange::<u16>::next_range`: a number in `lo..hi`
/// (it panics on an empty range, which `requires` leaves out).
#[verifier::external_body]
pub(crate) fn next_in_range(rng: &mut Wyrand, lo: u16, hi: u16) -> (r: u16)
    requires
        lo < hi,
    ensures
        lo <= r < hi,
{
    rng.next_range(lo..hi)
}

/// Relies on tinyrand's `Rand::next_lim_u16`: a number in `0..lim` (it panics
/// on a zero limit, which `requires` leaves out).
#[verifier::external_body]
pub(crate) fn next_below(rng: &mut Wyrand, lim: u16) -> (r: u16)
    requires
        0 < lim,
    ensures
        r < lim,
{
    rng.next_lim_u16(lim)
}

/// Relies on tinyrand's `Rand::next_bool`: `true` with probability `p`;
/// nothing is promised of a single outcome.
#[verifier::external_body]
pub(crate) fn next_chance(rng: &mut Wyrand, p: Probability) -> (r: bool) {
    rng.next_bool(p)
}

} // verus!
