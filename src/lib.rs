use vstd::prelude::*;

pub mod behaviour;
pub mod creeps;
pub mod game_helpers;
pub mod host;
pub mod plan;
pub mod predicate;

verus! {

/// A unit-struct marker naming this strategy's configuration.
pub struct Config;

} // verus!
