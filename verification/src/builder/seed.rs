//! Seeds: where the first one comes from, and how the search moves on.

use std::collections::hash_map::DefaultHasher;
use std::hash::{BuildHasher, Hasher, RandomState};
use vstd::bytes::{spec_u64_to_le_bytes, u64_to_le_bytes};
use vstd::prelude::*;
use vstd::std_specs::hash::DefaultHasherAdditionalSpecFns;

verus! {

/// The seed that follows `init` after trial `trial` where no progression was
/// configured: the standard hasher's digest of the two numbers, each written
/// as eight little-endian bytes.
pub open spec fn spec_default_next_seed(init: u64, trial: u64) -> u64 {
    DefaultHasher::spec_finish(seq![spec_u64_to_le_bytes(init), spec_u64_to_le_bytes(trial)])
}

/// The seed that follows `init` after trial `trial` where no progression was
/// configured.
pub fn default_next_seed(init: u64, trial: u64) -> (r: u64)
    ensures
        r == spec_default_next_seed(init, trial),
{
    let mut hasher = DefaultHasher::new();
    let first = u64_to_le_bytes(init);
    hasher.write(first.as_slice());
    let second = u64_to_le_bytes(trial);
    hasher.write(second.as_slice());
    assert(hasher@ =~= seq![spec_u64_to_le_bytes(init), spec_u64_to_le_bytes(trial)]);
    hasher.finish()
}

/// What the configured progression, or the default one, may give after trial
/// `trial`.
pub open spec fn seed_step<N>(next_seed: Option<N>, init: u64, trial: u64, seed: u64) -> bool where
    N: Fn(u64, u64) -> u64,
 {
    match next_seed {
        Some(f) => call_ensures(f, (init, trial), seed),
        None => seed == spec_default_next_seed(init, trial),
    }
}

/// The configured progression answers for every pair of numbers.
pub open spec fn next_defined<N>(next_seed: Option<N>) -> bool where N: Fn(u64, u64) -> u64 {
    next_seed matches Some(f) ==> forall|init: u64, trial: u64| #[trigger] call_requires(f, (init, trial))
}

/// `trail` is a run of seeds as the search tries them: after the first, each
/// is what the progression gave for the first seed and the number of the
/// trial before.
pub open spec fn seed_trail<N>(next_seed: Option<N>, trail: Seq<u64>) -> bool where N: Fn(u64, u64) -> u64 {
    &&& 0 < trail.len() <= u64::MAX + 2
    &&& forall|c: int| 0 <= c < trail.len() - 1 ==> seed_step(next_seed, trail[0], c as u64, #[trigger] trail[c + 1])
}

/// The seed for the trial after trial `trial`.
pub fn advance<N>(next_seed: &Option<N>, init: u64, trial: u64) -> (r: u64) where N: Fn(u64, u64) -> u64
    requires
        next_defined(*next_seed),
    ensures
        seed_step(*next_seed, init, trial, r),
{
    match next_seed {
        Some(f) => f(init, trial),
        None => default_next_seed(init, trial),
    }
}

/// A hasher factory with keys of its own.
///
/// Wraps `RandomState::new` of the standard library, which draws the keys
/// from the operating system. Nothing is claimed of the result.
#[verifier::external_body]
fn random_state() -> RandomState {
    RandomState::new()
}

/// The digest of `x` under the keys of `state`.
///
/// Wraps `BuildHasher::hash_one` of the standard library on a `RandomState`.
/// The digest depends on keys that nothing here knows: nothing is claimed of
/// it.
#[verifier::external_body]
fn digest(state: &RandomState, x: u64) -> u64 {
    state.hash_one(x)
}

/// A first seed for a search that was given none: a number that differs from
/// process to process.
pub(crate) fn random_seed() -> u64 {
    let state = random_state();
    digest(&state, 0x42)
}

} // verus!
