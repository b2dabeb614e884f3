//! Core of a genotyping/strain-matching pipeline: parse marker-delimited
//! sequence files, count discordant aligned positions between one reference
//! sequence and each query sequence, and rank the queries by ascending
//! distance, keeping the `k` most similar.

use vstd::prelude::*;

pub mod distance;
pub mod records;
pub mod score;
pub mod rank;
pub mod pipeline;

verus! {

/// The ways a run can fail. Scoring itself is total: every failure is
/// detected before any scoring work begins.
#[derive(Clone, Copy, PartialEq, Eq, Structural, Debug)]
pub enum Error {
    /// A file was missing, unreadable, or could not be mapped.
    IoError,
    /// A sequence file held no marker line, so no record could be parsed.
    FormatError,
    /// A record identifier could not be interpreted as text.
    EncodingError,
}

} // verus!
