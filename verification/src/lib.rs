//! Aggregation of `name;value` measurement records.
//!
//! The library ingests a byte buffer of newline-delimited records, each
//! holding a name and a fixed-point decimal value in tenths, and computes
//! per-name count/sum/min/max, presented as one sorted summary line.
//! The buffer is split into record-aligned chunks so that independent
//! workers may each aggregate one chunk; the per-chunk tables are then
//! merged, which is proved insensitive to the order of merging.

pub mod hashing;
pub mod merge;
pub mod parse;
pub mod partition;
pub mod present;
pub mod scan;
pub mod stats;
pub mod table;

use vstd::prelude::*;

verus! {

/// Why a run over an input buffer was aborted.
#[derive(Clone, Copy, PartialEq, Eq, Structural, Debug)]
pub enum ScanError {
    /// A record's name is never terminated by a separator.
    MissingSeparator,
    /// A split candidate has no line terminator anywhere after it.
    MissingTerminator,
    /// A value field does not match the fixed-point grammar.
    BadValue,
}

} // verus!
