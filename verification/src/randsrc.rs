//! The one trusted capability: uniform random draws, taken from the `rand`
//! crate's thread-local generator.

use vstd::prelude::*;

verus! {

/// Relies on `rand::random`: one fresh draw from the thread-local generator
/// under the standard distribution. Nothing can be promised of a random
/// value, so the contract is empty: every caller states what holds of every
/// outcome.
pub assume_specification<T>[ rand::random::<T> ]() -> (r: T)
    where
        rand::distributions::Standard: rand::distributions::Distribution<T>,
;

} // verus!
