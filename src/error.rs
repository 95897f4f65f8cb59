//! Errors returned by the storage layer.
use vstd::prelude::*;

verus! {

/// What went wrong in a storage operation.
#[derive(Debug, PartialEq, Eq)]
pub enum AdapterError {
    /// The backend selector names no supported engine.
    UnsupportedDbType(String),
    /// The engine could not open or create its storage.
    InitError(String),
    /// A bucket could not be created: the bucket, then the engine's message.
    CreateBucketError(String, String),
    /// A record could not be encoded: the key it was to be stored under.
    EncodeError(String),
    /// A stored value is not a valid record: its key.
    DecodeError(String),
    /// The requested record does not exist.
    NotFound(String),
    /// A failure reported by the physical engine.
    EngineError(String),
}

} // verus!
