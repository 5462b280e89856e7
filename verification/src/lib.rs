//! A Markov chain kept as an arena of steps.
//!
//! A [`Chain`] owns its steps; a [`ToStep`] names one of them and carries the
//! state it holds. Every step has a table of weighted transitions to other
//! steps of the same chain, keyed by the state of the target. [`walk`] follows
//! transitions chosen at random in proportion to their weights, and
//! [`mut_walk`] does the same while letting a callback change the chain after
//! every transition.
pub mod chain;
mod chance;
pub mod step;
pub mod table;
pub mod walk;

pub use chain::Chain;
pub use step::{Step, ToStep, Transition};
pub use walk::{mut_walk, walk};
