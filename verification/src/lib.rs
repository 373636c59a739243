//! Volume estimation by adaptive Monte Carlo sampling over a binary space
//! partition.
//!
//! The region is known only through a membership test, which the caller
//! runs on points drawn in a box. This crate holds what the refinement
//! decides and what it rests on: the rule that spends the sample budget
//! ([`estimator`]), the tree of cells and the descent into its most uncertain
//! leaf ([`tree`]), and, over the reals, the boxes of the cells ([`region`]),
//! the statistics of a batch and of a combination ([`stats`]), the values of
//! a whole tree ([`integrated`]) and the stopping rule ([`tolerance`]).

use vstd::prelude::*;

pub mod estimator;
pub mod integrated;
pub mod region;
pub mod stats;
pub mod tolerance;
pub mod tree;

pub use estimator::{halve, BspMonteCarlo, Outcome, Run};
pub use tolerance::Tolerance;
pub use tree::{BspTree, Cell, Tally};
