//! The random number generator and the clock the engines draw on.

use rand::Rng;
use rand::XorShiftRng;
use std::time::Instant;
use vstd::prelude::*;

verus! {

/// rand's `XorShiftRng`, the generator every random choice draws from; opaque here.
#[verifier::external_type_specification]
#[verifier::external_body]
pub struct ExXorShiftRng(XorShiftRng);

/// std's `Instant`, the start of a run for its time limit; opaque here.
#[verifier::external_type_specification]
#[verifier::external_body]
pub struct ExInstant(Instant);

/// Relies on rand's `Rng::gen::<usize>` on an `XorShiftRng`: a pseudo-random
/// `usize`, of which nothing is promised.
#[verifier::external_body]
pub(crate) fn sorteia_usize(rng: &mut XorShiftRng) -> usize {
    rng.gen::<usize>()
}

/// Relies on rand's `Rng::next_u64` on an `XorShiftRng`: a pseudo-random
/// `u64`, of which nothing is promised.
#[verifier::external_body]
pub(crate) fn sorteia_u64(rng: &mut XorShiftRng) -> u64 {
    rng.next_u64()
}

/// Relies on `Instant::now`: the current instant of the monotonic clock.
#[verifier::external_body]
pub(crate) fn agora() -> Instant {
    Instant::now()
}

/// Relies on `Instant::elapsed`: the whole seconds gone by since `t`.
#[verifier::external_body]
pub(crate) fn segundos_desde(t: &Instant) -> u64 {
    t.elapsed().as_secs()
}

} // verus!
