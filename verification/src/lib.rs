//! Ordering of dock labels.
//!
//! Every dock number of a bounded range is assigned to exactly one output
//! group. Exception groups are pinned: each goes out whole, at the place of its
//! smallest member. All other docks are gathered, in ascending order, into
//! regular groups that honour the priority classes, the capacity of each class
//! and the strictness flags.
//!
//! - [`cli`] holds the settings of a run, their validation and the reading of
//!   dock numbers and ranges from text.
//! - [`resolution`] and [`exceptions`] say what the canonical exception groups
//!   are and compute them.
//! - [`classify`] gives the docks their priority classes.
//! - [`plan`], [`plan_laws`] and [`partition`] say what the list of result
//!   groups is, what holds of it, and compute it.
//! - [`processor`] puts the three steps together.
//! - [`printer`] writes the report of a run, line by line.

pub mod classify;
pub mod cli;
pub mod exceptions;
pub mod lists;
pub mod models;
pub mod partition;
pub mod plan;
pub mod plan_laws;
pub mod printer;
pub mod processor;
pub mod resolution;
pub mod text;
pub mod warnings;
