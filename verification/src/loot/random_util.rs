//! The integer random draws the loot generator is built on, with the edge
//! cases the game's loot tables rely on.

use vstd::prelude::*;
use rand::Rng;

verus! {

/// `rand`'s `Rng::random_range` over an inclusive `i32` range, drawn from the
/// thread-local generator. The crate documents that the value lies in the
/// range and that an empty range panics, hence the `requires`; which value
/// comes out is chance, so nothing more is said.
#[verifier::external_body]
pub(crate) fn random_i32_inclusive(low: i32, high: i32) -> (r: i32)
    requires
        low <= high,
    ensures
        low <= r <= high,
{
    rand::rng().random_range(low..=high)
}

/// `rand`'s `Rng::random_range` over an inclusive `u32` range, drawn from the
/// thread-local generator; as for the `i32` draw, only the bounds are promised.
#[verifier::external_body]
pub(crate) fn random_u32_inclusive(low: u32, high: u32) -> (r: u32)
    requires
        low <= high,
    ensures
        low <= r <= high,
{
    rand::rng().random_range(low..=high)
}

/// A random integer in `min..=max`, inclusive at both ends. When `max` is not
/// above `min` the result is `min`, without a draw.
pub fn get_int(min: i32, max: i32) -> (r: i32)
    ensures
        max > min ==> min <= r <= max,
        max <= min ==> r == min,
{
    if max > min {
        random_i32_inclusive(min, max)
    } else {
        min
    }
}

/// A random element of `list`. An empty list has no element to give, so it
/// is not accepted.
pub fn get_array_value<T>(list: &[T]) -> (r: &T)
    requires
        1 <= list@.len() <= i32::MAX,
    ensures
        exists|i: int| 0 <= i < list@.len() && *r == list@[i],
{
    let index = get_int(0, list.len() as i32 - 1);
    &list[index as usize]
}

} // verus!
