//! Move commits and subtrees from one place to another.
//!
//! From the arguments of the command, [`selection`] finds the commits that are moved and the commit
//! that they are moved to, and [`plan`] the operations that move them. [`command`] puts the two
//! into the course of the command as a whole.

pub mod base;
pub mod command;
pub mod commit_set;
pub mod components;
pub mod defaults;
pub mod graph;
pub mod laws;
pub mod message;
pub mod outcome;
pub mod plan;
pub mod selection;
