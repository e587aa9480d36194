//! Shuffled Complex Evolution (SCE-UA) global optimisation: the integer
//! core of the method, verified with Verus.
//!
//! The floating-point work of the optimiser (objective values, simplex
//! geometry, population statistics) is done by the caller; this crate holds
//! the random number generator, the sampling of sub-complexes, the shuffling
//! of the population between complexes, the validation of a problem's shape
//! and the control flow of the optimiser as a state machine.
pub mod config;
pub mod driver;
pub mod population;
pub mod problem;
mod ratio;
pub mod rng;

pub use population::{
    compress_complexes, partition_complex, replace_complex, sample_rank, sample_simplex_indices,
};
pub use config::{resolve_plan, ConfigError, Plan};
pub use driver::{initial_population_size, Action, Driver, Event, TerminationReason, Trial};
pub use problem::{validate_problem, ProblemError};
pub use rng::{DuanRng, UniformDraw};
