use vstd::prelude::*;

verus! {

/// The errors of the store. Errors that come from the serialisation or the
/// file layer carry their message.
#[derive(Debug, Clone, PartialEq, Eq)]
pub enum MyError {
    /// Serde error
    Serde(String),
    /// Error of the file layer
    Write(String),
    /// Key not found
    KeyNotFound,
    /// Wrong command
    UnexpectedCommand,
    /// The engine asked for is not the one that the data directory was made with
    WrongEngine,
}

} // verus!
