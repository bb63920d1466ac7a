//! Turns resolved trigger / invariant / outcome events into deduplicated behavioural
//! patterns, and ranks stored patterns against a new event.

use vstd::prelude::*;

pub mod text;
pub mod tokens;
pub mod outcome;
pub mod vote;
pub mod compiler;
pub mod matcher;
pub mod ranking;
pub mod capture;
pub mod covenant;
pub mod audit;
pub mod cli;
pub mod stats;
pub mod rollout;
pub mod prompting;

verus! {

} // verus!
