use vstd::prelude::*;

verus! {

/// Errors that can occur when working with the file system.
#[derive(Debug, Clone, PartialEq)]
pub enum FileSystemError {
    /// File was not found at the specified path.
    FileNotFound(String),
    /// The provided path is invalid (e.g., empty string).
    InvalidPath(String),
    /// An error occurred during a read operation.
    ReadError(String),
    /// An error occurred during a write operation.
    WriteError(String),
}

} // verus!
