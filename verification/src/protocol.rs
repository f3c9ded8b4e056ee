//! What the engine asks of the file system, and what it is told in return.
//!
//! The engine itself touches no file. It hands out one `Request` at a time;
//! whoever drives it carries the request out and hands back a `Response`.

use crate::entries::{DirectoryEntries, EntriesView};
use crate::timestamp::Timestamp;
use vstd::prelude::*;

verus! {

/// Why a run was given up.
#[derive(Clone, Copy, Debug, PartialEq, Eq, Structural)]
pub enum MirrorError {
    /// A directory could not be listed.
    ScanFailed,
    /// A destination directory could not be created.
    CreateFailed,
    /// A destination file could not be removed.
    RemoveFailed,
    /// A modification time could not be read or set.
    MetadataFailed,
    /// A file could not be copied.
    CopyFailed,
    /// A path is too short to lie inside the frame it was measured against.
    PathOutsideFrame,
    /// The response does not answer the request that was pending.
    UnexpectedResponse,
    /// A response arrived while no run was under way.
    NotRunning,
}

/// The next thing to do on the file system, or the end of the run.
#[derive(Clone, Debug, PartialEq, Eq)]
pub enum Request {
    /// List the children of the directory `path`.
    ScanDirectory { path: String },
    /// Tell whether anything exists at `path`.
    Exists { path: String },
    /// Create the directory `path` and every ancestor of it that is missing.
    CreateDirectories { path: String },
    /// Delete the file `path`.
    RemoveFile { path: String },
    /// Read the modification times of `source` and of `destination`.
    ReadTimes { source: String, destination: String },
    /// Copy the contents of `source` to `destination`.
    CopyFile { source: String, destination: String },
    /// Give `destination` the modification time that `source` has.
    SetModifiedTime { source: String, destination: String },
    /// The run is complete.
    Finished,
    /// The run was given up.
    Failed(MirrorError),
}

/// A `Request` over sequences of characters.
#[verifier::ext_equal]
pub enum RequestView {
    ScanDirectory { path: Seq<char> },
    Exists { path: Seq<char> },
    CreateDirectories { path: Seq<char> },
    RemoveFile { path: Seq<char> },
    ReadTimes { source: Seq<char>, destination: Seq<char> },
    CopyFile { source: Seq<char>, destination: Seq<char> },
    SetModifiedTime { source: Seq<char>, destination: Seq<char> },
    Finished,
    Failed(MirrorError),
}

impl View for Request {
    type V = RequestView;

    open spec fn view(&self) -> RequestView {
        match self {
            Request::ScanDirectory { path } => RequestView::ScanDirectory { path: path@ },
            Request::Exists { path } => RequestView::Exists { path: path@ },
            Request::CreateDirectories { path } => RequestView::CreateDirectories { path: path@ },
            Request::RemoveFile { path } => RequestView::RemoveFile { path: path@ },
            Request::ReadTimes { source, destination } => RequestView::ReadTimes {
                source: source@,
                destination: destination@,
            },
            Request::CopyFile { source, destination } => RequestView::CopyFile {
                source: source@,
                destination: destination@,
            },
            Request::SetModifiedTime { source, destination } => RequestView::SetModifiedTime {
                source: source@,
                destination: destination@,
            },
            Request::Finished => RequestView::Finished,
            Request::Failed(error) => RequestView::Failed(*error),
        }
    }
}

impl RequestView {
    /// Whether the request ends the run.
    pub open spec fn is_final(self) -> bool {
        self is Finished || self is Failed
    }
}

impl Request {
    /// Tells whether the request ends the run, so that no response is due.
    pub fn is_final(&self) -> (last: bool)
        ensures
            last == self@.is_final(),
    {
        match self {
            Request::Finished => true,
            Request::Failed(_) => true,
            _ => false,
        }
    }
}

/// What the file system answered to the pending request.
#[derive(Clone, Debug, PartialEq, Eq)]
pub enum Response {
    /// The children of the directory that was to be listed.
    Entries(DirectoryEntries),
    /// Whether something exists at the path that was asked about.
    Exists(bool),
    /// The two modification times that were to be read.
    Times { source: Timestamp, destination: Timestamp },
    /// The change that was asked for has been made.
    Done,
    /// The file system refused or failed.
    Failed,
}

/// A `Response` over sequences of characters.
#[verifier::ext_equal]
pub enum ResponseView {
    Entries(EntriesView),
    Exists(bool),
    Times { source: Timestamp, destination: Timestamp },
    Done,
    Failed,
}

impl View for Response {
    type V = ResponseView;

    open spec fn view(&self) -> ResponseView {
        match self {
            Response::Entries(entries) => ResponseView::Entries(entries@),
            Response::Exists(present) => ResponseView::Exists(*present),
            Response::Times { source, destination } => ResponseView::Times {
                source: *source,
                destination: *destination,
            },
            Response::Done => ResponseView::Done,
            Response::Failed => ResponseView::Failed,
        }
    }
}

} // verus!
