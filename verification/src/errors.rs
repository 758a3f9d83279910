//! Error taxonomy of the library.
//!
//! Fatal conditions are reported through these enums; the binary around the
//! library turns them into diagnostics and a non-zero exit code.

use vstd::prelude::*;

verus! {

/// Errors that can occur during synchronization operations.
#[derive(Debug)]
pub enum SyncError {
    /// A directory listing could not be read.
    DirectoryRead(String),
    /// A file's content fingerprint could not be computed.
    HashError(String),
    /// A file could not be copied.
    CopyError(String),
    /// A path is missing, malformed, or escapes the scan root.
    InvalidPath(String),
    /// Any other I/O failure, by its rendered message.
    Io(String),
}

impl SyncError {
    /// The diagnostic text carried by this error.
    pub fn message(&self) -> (r: &str)
        ensures
            r@ == self.spec_message(),
    {
        match self {
            SyncError::DirectoryRead(m) => m.as_str(),
            SyncError::HashError(m) => m.as_str(),
            SyncError::CopyError(m) => m.as_str(),
            SyncError::InvalidPath(m) => m.as_str(),
            SyncError::Io(m) => m.as_str(),
        }
    }

    /// The message a `SyncError` carries, whichever variant it is.
    pub open spec fn spec_message(&self) -> Seq<char> {
        match self {
            SyncError::DirectoryRead(m) => m@,
            SyncError::HashError(m) => m@,
            SyncError::CopyError(m) => m@,
            SyncError::InvalidPath(m) => m@,
            SyncError::Io(m) => m@,
        }
    }
}

/// Errors that can occur during low-level file operations.
#[derive(Debug)]
pub enum IoError {
    /// A file copy failed.
    CopyFailed(String),
    /// Metadata (timestamps, permissions) could not be applied.
    MetadataFailed(String),
    /// A file could not be removed.
    RemoveFailed(String),
    /// Any other I/O failure, by its rendered message.
    Io(String),
}

impl IoError {
    /// The diagnostic text carried by this error.
    pub fn message(&self) -> (r: &str)
        ensures
            r@ == self.spec_message(),
    {
        match self {
            IoError::CopyFailed(m) => m.as_str(),
            IoError::MetadataFailed(m) => m.as_str(),
            IoError::RemoveFailed(m) => m.as_str(),
            IoError::Io(m) => m.as_str(),
        }
    }

    /// The message an `IoError` carries, whichever variant it is.
    pub open spec fn spec_message(&self) -> Seq<char> {
        match self {
            IoError::CopyFailed(m) => m@,
            IoError::MetadataFailed(m) => m@,
            IoError::RemoveFailed(m) => m@,
            IoError::Io(m) => m@,
        }
    }
}

} // verus!
