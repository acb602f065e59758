//! The failures that the index reports.

use vstd::prelude::*;

verus! {

/// Why an operation on the index failed.
#[derive(Clone, Copy, PartialEq, Eq, Structural, Debug)]
pub enum IndexError {
    /// A geohash handed in by the caller is malformed.
    DecodeError,
    /// A bucket names an entity that has no recorded location: the index is corrupt.
    IntegrityError,
    /// The entity was never indexed.
    NotFound,
}

} // verus!
