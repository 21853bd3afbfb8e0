//! Random draws.

use vstd::prelude::*;

verus! {

/// The number of parts a chance is counted in: a chance of `p` happens
/// `p` times in a million.
pub const CHANCE_SCALE: u32 = 1000000;

/// Relies on rand::Rng::gen_range on the thread-local generator: a value drawn
/// from `0..n`; the range must not be empty.
#[verifier::external_body]
pub(crate) fn random_below(n: usize) -> (r: usize)
    requires
        n > 0,
    ensures
        r < n,
{
    rand::Rng::gen_range(&mut rand::thread_rng(), 0..n)
}

/// Relies on rand::seq::index::sample on the thread-local generator: two
/// distinct indices drawn from `0..length`, which must hold at least two.
#[verifier::external_body]
pub(crate) fn sample_two(length: usize) -> (r: (usize, usize))
    requires
        length >= 2,
    ensures
        r.0 < length,
        r.1 < length,
        r.0 != r.1,
{
    let picked = rand::seq::index::sample(&mut rand::thread_rng(), length, 2);
    (picked.index(0), picked.index(1))
}

/// Whether an event of chance `p` (in millionths) happens this time: never for
/// zero, always from one million up.
pub fn chance(p: u32) -> (r: bool)
    ensures
        p == 0 ==> !r,
        p >= CHANCE_SCALE ==> r,
{
    let draw = random_below(CHANCE_SCALE as usize);
    draw < p as usize
}

} // verus!
