//! The workspace record and the error kinds of the registry.

use vstd::prelude::*;

verus! {

/// One registered workspace: the directory its name points to.
///
/// Paths are held as raw bytes: a filesystem path is not required to be
/// valid UTF-8, and the codec and the protocol encoder work byte for byte.
#[derive(Debug, Clone)]
pub struct Workspace {
    pub path: Vec<u8>,
}

impl Workspace {
    /// A workspace pointing at `path`.
    pub fn new(path: Vec<u8>) -> (ws: Workspace)
        ensures
            ws.path@ == path@,
    {
        Workspace { path }
    }
}

/// Every way an operation on the registry can fail.
#[derive(Clone, Copy, Debug, PartialEq, Eq, Structural)]
pub enum Error {
    /// The name has no record.
    NotFound,
    /// `add` collided with a record that already exists.
    AlreadyExists,
    /// The record resolves to a path that no longer exists on disk.
    MovedOrMissing,
    /// A record file could not be read.
    Read,
    /// A record file could not be decoded.
    Parse,
    /// Creating, writing or deleting a file failed.
    Io,
    /// The registry root under the user's home directory cannot be resolved.
    HomeDirectoryUnavailable,
}

impl Error {
    /// A user-facing description of the failure.
    pub fn message(&self) -> (m: &'static str) {
        match self {
            Error::NotFound => "the workspace does not exist",
            Error::AlreadyExists => "a workspace with this name already exists",
            Error::MovedOrMissing => "the path of this workspace was moved or deleted",
            Error::Read => "could not read workspace data",
            Error::Parse => "could not parse workspace data",
            Error::Io => "could not write workspace data",
            Error::HomeDirectoryUnavailable => "could not find the home directory",
        }
    }
}

} // verus!
