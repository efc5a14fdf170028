//! Batch evaluation harness for scored test cases.
//!
//! A run takes a set of input cases, hands each to an external judge
//! process, extracts a numeric score from the judge's diagnostics,
//! aggregates the scores in stable path order, and optionally tracks a
//! persisted best-score baseline from which a normalized relative score
//! is computed per case.
//!
//! This crate holds the verified core: score extraction, deterministic
//! ordering and aggregation, and the relative-scoring / baseline-update
//! rules. Process spawning, file handling and terminal output live in
//! the unverified binary around it.

use vstd::prelude::*;

verus! {

/// A per-case failure. A failing case never aborts its siblings; the
/// run is gated on these only after every case has been attempted.
#[derive(Clone, Copy, Debug, PartialEq, Eq, Structural)]
pub enum CaseError {
    /// The case's input file could not be opened, or its output file
    /// could not be created.
    CaseIo,
    /// The judge process could not be spawned.
    Spawn,
    /// The judge's diagnostics held no score line.
    ScoreNotFound,
    /// The score's digit run does not fit in 64 bits.
    ScoreOverflow,
}

} // verus!

pub mod aggregate;
pub mod baseline;
pub mod cases;
pub mod config;
pub mod run;
pub mod score;
