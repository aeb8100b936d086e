//! Structured errors returned by the lock engine.
//!
//! The engine never formats user-facing messages itself: it returns these
//! structured values and leaves rendering to the caller.

use vstd::prelude::*;

verus! {

/// Errors produced by lock parsing and by the bump operation.
#[derive(Debug)]
pub enum Error {
    /// A line of the lock text matched neither the simple-dependency shape
    /// nor the source-control shape. `line` is 1-based and counts every
    /// line of the input, skipped lines included.
    MalformedLock { line: usize, details: String },
    /// A bump targeted a name that no record carries.
    NothingToBump { name: String },
    /// A bump targeted a name carried by more than one record.
    MultipleBumps { name: String },
}

} // verus!
