//! Contracts of the outside functions that the library calls.

use vstd::prelude::*;

verus! {

/// Relies on rand::random: a value drawn from the thread-local CSPRNG. Nothing
/// is promised about the value.
pub assume_specification<T>[ rand::random::<T> ]() -> (r: T)
    where
        rand::distributions::Standard: rand::distributions::Distribution<T>,
;

} // verus!
