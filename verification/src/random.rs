//! The random source: uniform integers from an inclusive range, and a
//! uniform pick from a non-empty slice. Both lean on the `rand` crate and
//! are therefore trusted, with contracts stating only what holds of every
//! outcome.

use vstd::prelude::*;
use rand::Rng;

verus! {

/// Relies on rand's `Rng::gen_range` over the inclusive range `from..=to`:
/// it panics on an empty range (excluded by the precondition) and otherwise
/// returns a uniformly distributed value inside the range. Nothing more can
/// be promised of a random draw.
#[verifier::external_body]
pub fn from_to(from: u32, to: u32) -> (r: u32)
    requires
        from <= to,
    ensures
        from <= r <= to,
{
    let mut rng = rand::thread_rng();
    rng.gen_range(from..=to)
}

/// Relies on rand's `Rng::gen_range` over `0..data.len()`: it panics on an
/// empty range (excluded by the precondition) and otherwise returns an index
/// strictly below `data.len()`, so the result is one of the slice's elements.
#[verifier::external_body]
pub fn choice<T>(data: &[T]) -> (r: &T)
    requires
        data@.len() > 0,
    ensures
        data@.contains(*r),
{
    let mut rng = rand::thread_rng();
    let index: usize = rng.gen_range(0..data.len());
    &data[index]
}

} // verus!
