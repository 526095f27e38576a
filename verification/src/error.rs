//! The classes that the errors of this crate fall into.

use vstd::prelude::*;

verus! {

/// The class of an error, by which callers tell bad data from bad arguments.
#[derive(Clone, Copy, Debug, PartialEq, Eq, Structural)]
pub enum ErrorKind {
    /// The bytes that were read break their format.
    InvalidData,
    /// An argument cannot be met.
    InvalidInput,
    /// The data ended inside an item.
    UnexpectedEof,
    /// A file is not there.
    NotFound,
    /// A file may not be used.
    PermissionDenied,
    /// A file is there already.
    AlreadyExists,
    /// Nothing more could be written.
    WriteZero,
    /// No space is left to write to.
    StorageFull,
    /// The operation was interrupted.
    Interrupted,
    /// The operation took too long.
    TimedOut,
    /// The operation is not supported.
    Unsupported,
    /// No memory could be had.
    OutOfMemory,
    /// A path names a directory where a file is needed.
    IsADirectory,
    /// A path leads through a file.
    NotADirectory,
    /// The file system allows no writing.
    ReadOnlyFilesystem,
    /// Anything else.
    Other,
}

} // verus!
