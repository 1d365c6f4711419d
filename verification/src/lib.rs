//! A steady-state evolutionary search for cheap round trips through a
//! weighted, directed graph of cities.
//!
//! The crate holds the tour encoding, the tour-cost evaluator, the
//! recombination and perturbation operators, tournament selection, the
//! replace-weakest policy and the generational loop that ties them together.
//! Every item is verified; random draws come from the `rand` crate through a
//! handful of trusted wrappers in [`random`].

use vstd::prelude::*;

pub mod breeding;
pub mod chromosome;
pub mod cost;
pub mod country;
pub mod crossover;
pub mod error;
pub mod interface;
pub mod mutation;
pub mod ordered;
pub mod permutation;
pub mod population;
pub mod random;
pub mod rank;
pub mod repair;
pub mod report;
pub mod simulation;

verus! {

/// The number of generations every simulation runs for.
pub const NUMBER_OF_GENERATIONS: usize = 10000;

} // verus!
