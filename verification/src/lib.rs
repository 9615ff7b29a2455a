//! Parallel partition-aggregate-merge engine for `key;value` measurement
//! files: per-key minimum, maximum and mean over fixed-point values.

use vstd::prelude::*;

pub mod aggregate;
pub mod merge;
pub mod mmap;
pub mod order;
pub mod parse;
pub mod render;
pub mod run;
pub mod stats;

verus! {

/// Why a run over an input region failed.
#[derive(Clone, Copy, PartialEq, Eq, Structural, Debug)]
pub enum Error {
    /// A line lacks the `;` delimiter, or its value part is not a decimal
    /// number with exactly one fractional digit.
    MalformedRecord,
}

} // verus!
