//! Genetic-algorithm search engine for a home health-care routing problem:
//! chromosomes encode nurse routes over patients, a fitness evaluator
//! simulates time windows, capacities and the depot deadline, and crossover,
//! mutation and selection operators drive an island-based evolutionary loop.
//!
//! All times, demands and costs are unsigned integers; fitness values are
//! expressed in tenths of a time unit so that the 3/10 penalty weight used by
//! the evaluator stays integral.

use vstd::prelude::*;

pub mod chromosome;
pub mod crossover;
pub mod eval;
pub mod gen_alg;
pub mod individual;
pub mod helper;
pub mod instance;
pub mod island;
pub mod mutation;
pub mod population_init;
pub mod report;
pub mod rng;
pub mod selection;

verus! {

/// Largest number of patients an instance may carry.
pub const MAX_PATIENTS: usize = 5000;

/// Largest number of nurses an instance may carry.
pub const MAX_NURSES: usize = 5000;

/// Upper bound on every time quantity of an instance: travel times, care
/// times, window bounds and the depot return deadline.
pub const MAX_TIME: u64 = 500_000;

/// Upper bound on a single patient's demand.
pub const MAX_DEMAND: u64 = 500_000;

/// Upper bound on a chromosome length accepted by the evaluator.
pub const MAX_GENES: usize = 10_000;

/// Every fitness value produced by the evaluator stays below this limit,
/// which keeps the diversity statistics of a population inside `u128`.
pub const FITNESS_LIMIT: u64 = 0x2_0000_0000_0000;

/// Largest population size the statistics and selections accept.
pub const MAX_POP: usize = 10_000;

} // verus!
