//! The errors that a filesystem operation reports.
use vstd::prelude::*;

verus! {

/// The error taxonomy of the backend contract; the host adapter maps each
/// variant to the platform's errno value.
#[derive(Clone, Copy, Debug, PartialEq, Eq, Structural)]
pub enum FsError {
    /// No such name or inode.
    NotFound,
    /// The name is already taken.
    Exists,
    /// A file operation was attempted on a directory.
    IsDir,
    /// A directory operation was attempted on a non-directory.
    NotDir,
    /// The directory still has children.
    NotEmpty,
    /// The name is refused by the osx-mode filter.
    Denied,
    /// The node has the wrong kind for the request.
    Invalid,
    /// The backend could not complete the update.
    Io,
    /// The operation is not served by this filesystem.
    Unsupported,
}

} // verus!
