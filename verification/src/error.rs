//! Errors reported by the library.

use vstd::prelude::*;

verus! {

/// What went wrong while reading delegation data. Each variant carries a
/// message for people; the variant itself is what callers decide on.
#[derive(Debug, Clone, PartialEq, Eq)]
pub enum Error {
    /// The status field names no known status.
    ParseStatusError(String),
    /// The country field is not a two-letter country code.
    ParseCountryError(String),
    /// A registry field names no known registry.
    ParseRegistryError(String),
    /// A required field of a record is missing or cannot be read.
    ParseRecordError(String),
    /// The bounds of an address range are in the wrong order, or a count is
    /// zero or reaches beyond the address space.
    InvalidRangeError(String),
}

} // verus!
