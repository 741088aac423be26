//! The errors of a listing.

use vstd::prelude::*;
use vstd::string::StringExecFns;

verus! {

/// Why a request failed.
#[derive(Clone, Copy, Debug, PartialEq, Eq, Structural)]
pub enum LSErrorKind {
    /// The request itself was malformed.
    InvalidArguments,
    /// The caller may not do what it asked for.
    PermissionDenied,
    /// The path is missing, is no directory, or may not be read.
    DirectoryUnreadable,
    /// An entry is of none of the kinds that a listing knows.
    UnknownFileType,
    /// An entry's metadata could not be read.
    MetadataUnavailable,
}

/// A failed request: the kind of failure, and what it was about.
#[derive(Debug)]
pub struct LSError {
    pub kind: LSErrorKind,
    pub message: String,
}

/// An error as plain values.
pub struct LSErrorView {
    pub kind: LSErrorKind,
    pub message: Seq<char>,
}

impl View for LSError {
    type V = LSErrorView;

    open spec fn view(&self) -> LSErrorView {
        LSErrorView { kind: self.kind, message: self.message@ }
    }
}

/// The words that introduce an error of the given kind.
pub open spec fn kind_label(kind: LSErrorKind) -> Seq<char> {
    match kind {
        LSErrorKind::InvalidArguments => "invalid arguments: "@,
        LSErrorKind::PermissionDenied => "permission denied: "@,
        LSErrorKind::DirectoryUnreadable => "directory unreadable: "@,
        LSErrorKind::UnknownFileType => "unknown file type: "@,
        LSErrorKind::MetadataUnavailable => "metadata unavailable: "@,
    }
}

impl LSError {
    /// The error as a line of text for the user: the kind in words, then the
    /// message.
    pub fn to_string(&self) -> (line: String)
        ensures
            line@ == kind_label(self.kind) + self.message@,
    {
        let label = match self.kind {
            LSErrorKind::InvalidArguments => "invalid arguments: ",
            LSErrorKind::PermissionDenied => "permission denied: ",
            LSErrorKind::DirectoryUnreadable => "directory unreadable: ",
            LSErrorKind::UnknownFileType => "unknown file type: ",
            LSErrorKind::MetadataUnavailable => "metadata unavailable: ",
        };
        String::from_str(label).concat(self.message.as_str())
    }
}

} // verus!
