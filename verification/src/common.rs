//! Errors and identifiers shared by the whole crate.

use vstd::prelude::*;

verus! {

/// Why an operation on a collection failed.
#[derive(Debug, Clone, PartialEq, Eq)]
pub enum WaCustomError {
    /// An argument is not acceptable: an empty collection name, a vector of
    /// the wrong dimension.
    InvalidParams,
    /// The file system refused an operation.
    FsError(String),
    /// The registry of collections failed.
    DatabaseError(String),
    /// A record could not be encoded.
    SerializationError(String),
}

/// The name that a caller gives to a vector.
#[derive(Debug, Clone, PartialEq, Eq, Hash)]
pub struct VectorId(pub String);

} // verus!
