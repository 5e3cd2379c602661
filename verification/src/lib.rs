//! A Pareto multi-objective genetic algorithm for image segmentation.
//!
//! A candidate segmentation is encoded as a per-pixel direction genome;
//! decoding the direction graph yields connected regions, which are scored
//! against three objectives (edge value, connectivity, overall deviation)
//! and ranked by Pareto dominance.  Variation and selection operators evolve
//! a population of such candidates.
//!
//! All color distances are carried as fixed-point integers (thousandths),
//! connectivity penalties in units of 1/840 (the least common multiple of
//! the neighbor weights), and operator rates in thousandths.

pub mod config;
pub mod crossover;
pub mod decoder;
pub mod distance;
pub mod fifo;
pub mod genome;
pub mod global_data;
pub mod individual;
pub mod mst;
pub mod mutation;
pub mod population;
pub mod rng;
pub mod selection;
