//! Error kinds of the cluster's operations.

use vstd::prelude::*;

verus! {

/// What went wrong, by kind.
#[derive(Debug, Clone, Copy, PartialEq, Eq, Structural)]
pub enum DfsError {
    /// A file, block or node unknown to the metadata.
    NotFound,
    /// A malformed request.
    InvalidArgument,
    /// No data node is available for allocation or repair.
    ResourceExhausted,
    /// A local disk operation on a data node failed.
    IoError,
    /// A downstream hop of a replica chain was unreachable or failed.
    Unavailable,
    /// A freshly minted block id was already in use, or two minted ids
    /// coincided; nothing was recorded, and asking again mints new ids.
    IdCollision,
}

/// An error carried as text between processes.
#[derive(Debug, Clone)]
pub struct SerializableError {
    pub message: String,
}

impl SerializableError {
    pub fn new(message: String) -> (r: SerializableError)
        ensures
            r.message@ == message@,
    {
        SerializableError { message }
    }

    /// The message, as it is shown to a user.
    pub fn message(&self) -> (r: String)
        ensures
            r@ == self.message@,
    {
        self.message.clone()
    }
}

} // verus!
