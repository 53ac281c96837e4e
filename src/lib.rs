//! Mining a repository's commit history for bug-prone files and functions.
//!
//! The pipeline runs from diff text to change records ([`history`]), from
//! change records to per-file and per-function statistics ([`stats`]), from
//! statistics to scores ([`score`]), and from scores to a measure of how many
//! later bug fixes a ranking would have caught ([`backtest`]). [`tree`] lays
//! the scores out along the directory structure.
use vstd::prelude::*;

pub mod backtest;
pub mod history;
pub mod pattern;
pub mod score;
pub mod stats;
pub mod tree;

verus! {

} // verus!
