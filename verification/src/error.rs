//! The error kinds the store reports. Every operation propagates its error to
//! the caller; a missing key is not an error but an ordinary `None` result.

use vstd::prelude::*;

verus! {

/// What can go wrong in a store operation.
#[derive(Debug, Clone, Copy, PartialEq, Eq, Structural)]
pub enum Error {
    /// An environment-side failure, such as exhausting the table identifier
    /// space; the embedding program also uses this kind for real read and
    /// write failures.
    Io,
    /// The redo log holds an unknown record type or a partial record tail.
    CorruptLog,
    /// A sorted-table file fails its checksum, holds out-of-range region
    /// pointers, a truncated region, or a non-monotonic key sequence.
    CorruptTable,
    /// A key or value is too large for the record framing.
    InvalidArgument,
}

} // verus!
