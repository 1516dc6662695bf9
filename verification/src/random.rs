//! Random draws.

use vstd::prelude::*;
use rand::Rng;

verus! {

/// Draws from `rand::thread_rng()` with `Rng::gen_range` on the half-open
/// range `low..high`. `gen_range` promises a value in the range and panics on
/// an empty range, which `requires` rules out; nothing else is claimed of the
/// value. `thread_rng` fails only where the operating system gives it no seed.
#[verifier::external_body]
fn uniform(low: i64, high: i64) -> (x: i64)
    requires
        low < high,
    ensures
        low <= x < high,
{
    rand::thread_rng().gen_range(low..high)
}

/// A random number of thousandths, at least -1000 and below 1000.
pub fn random_number() -> (x: i64)
    ensures
        -1000 <= x < 1000,
{
    uniform(-1000, 1000)
}

/// A random value, at least `low` and below `high`.
pub fn random_in_f32_range(low: i64, high: i64) -> (x: i64)
    requires
        low < high,
    ensures
        low <= x < high,
{
    uniform(low, high)
}

} // verus!
