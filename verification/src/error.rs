use vstd::prelude::*;

verus! {

/// What can go wrong in the library and around it.
#[derive(Debug)]
pub enum SynapseError {
    /// No memory item has the given id.
    NotFound(String),
    /// The request makes no sense, e.g. linking a memory to itself.
    InvalidOperation(String),
    /// Reading or writing a file failed.
    Io { path: String, message: String },
    /// Stored data could not be (de)serialized.
    Serialization(String),
}

} // verus!
