//! The errors that the store reports.

use vstd::prelude::*;

verus! {

/// Why an operation could not be done.
#[derive(Debug, Clone, Copy, PartialEq, Eq, Structural)]
pub enum EngineError {
    /// There is no column family of that name.
    NotFound,
    /// The input ends before a complete item was read.
    UnexpectedEof,
    /// The input is not in the expected format.
    InvalidData,
}

} // verus!
