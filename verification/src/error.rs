//! Common errors
use crate::storage_node::State;
use vstd::prelude::*;

verus! {

/// General error that is not specific to the flash implementation
#[derive(Debug, PartialEq)]
pub enum Error {
    /// Deserialization of a key-value pair failed
    Deserialization,
    /// Serialization of a node failed
    Serialization,
    /// The key already exists in the list
    DuplicateKey,
    /// The node with the given key is in a state that does not allow the operation
    InvalidState(String, State),
    /// The storage has not been read yet
    NeedsFirstRead,
    /// Garbage has to be collected before the next write
    NeedsGarbageCollect,
    /// The storage does not hold what an earlier scan has found in it
    InconsistentFlash,
    /// A handle exists for the node
    AlreadyTaken,
    /// The node belongs to another list
    NodeInOtherList,
}

/// Errors during loading from and storing to flash.
///
/// Some errors might be specific to the flash implementation.
#[derive(Debug, PartialEq)]
pub enum LoadStoreError<T> {
    /// Writing to flash has failed. Contains the error returned by the storage impl.
    FlashWrite(T),
    /// Reading from flash has failed. Contains the error returned by the storage impl.
    FlashRead(T),
    /// Value read back from the flash during verification did not match serialized list node.
    WriteVerificationFailed,
    /// Recoverable error on an application level
    AppError(Error),
}

impl<T> From<Error> for LoadStoreError<T> {
    fn from(value: Error) -> (r: Self) {
        LoadStoreError::AppError(value)
    }
}

impl<T> vstd::std_specs::convert::FromSpecImpl<Error> for LoadStoreError<T> {
    open spec fn obeys_from_spec() -> bool {
        true
    }

    open spec fn from_spec(v: Error) -> Self {
        LoadStoreError::AppError(v)
    }
}

} // verus!
