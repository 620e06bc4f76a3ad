//! Fresh identifiers for canvases and kitty images.
//!
//! Identifiers are drawn from the standard library's randomly keyed hasher: two calls give
//! different values with overwhelming probability, but nothing about a particular value is
//! promised.

use std::collections::hash_map::RandomState;
use vstd::prelude::*;

verus! {

/// Calls `std::collections::hash_map::RandomState::new`, which seeds a hasher with random
/// keys. Nothing is promised of the result.
#[verifier::external_body]
fn random_state() -> RandomState {
    RandomState::new()
}

/// Calls `std::hash::BuildHasher::hash_one` on `state`. The result depends on the random keys
/// of `state`, so nothing is promised of it.
#[verifier::external_body]
fn hash_one(state: &RandomState, value: u64) -> u64 {
    std::hash::BuildHasher::hash_one(state, value)
}

/// A fresh 64-bit identifier: the hash of `salt` under a freshly seeded random hasher.
pub fn fresh_id(salt: u64) -> u64 {
    let state = random_state();
    hash_one(&state, salt)
}

/// A fresh non-zero 32-bit identifier: the low half of a fresh 64-bit one, with `0` mapped
/// to `1`.
pub fn fresh_nonzero_u32(salt: u64) -> (r: u32)
    ensures
        r != 0,
{
    let id = fresh_id(salt) as u32;
    if id == 0 { 1 } else { id }
}

} // verus!
