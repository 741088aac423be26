//! Directory entries as typed records.

use vstd::prelude::*;
use crate::error::{LSError, LSErrorKind, LSErrorView};

verus! {

/// What an entry is.
#[derive(Clone, Copy, Debug, PartialEq, Eq, Structural)]
pub enum Kind {
    /// A regular file.
    File,
    /// A directory.
    Dir,
    /// A symbolic link.
    Link,
    /// A named pipe.
    Fifo,
    /// A block device.
    Block,
    /// A character device.
    Char,
    /// A socket.
    Socket,
}

/// One directory entry with its metadata.
#[derive(Debug)]
pub struct File {
    /// The entry's name within its directory; never empty.
    pub name: String,
    pub kind: Kind,
    /// Length in bytes.
    pub size: u64,
    /// Inode number.
    pub ino: u64,
    /// Numeric id of the owner.
    pub uid: u32,
    /// Numeric id of the group.
    pub gid: u32,
    /// Permission bits and special bits; the low twelve bits count.
    pub mode: u32,
    /// Last access, in seconds since the epoch.
    pub atime: i64,
    /// Last modification, in seconds since the epoch.
    pub modified: u64,
}

/// A record as plain values.
pub struct FileView {
    pub name: Seq<char>,
    pub kind: Kind,
    pub size: u64,
    pub ino: u64,
    pub uid: u32,
    pub gid: u32,
    pub mode: u32,
    pub atime: i64,
    pub modified: u64,
}

impl View for File {
    type V = FileView;

    open spec fn view(&self) -> FileView {
        FileView {
            name: self.name@,
            kind: self.kind,
            size: self.size,
            ino: self.ino,
            uid: self.uid,
            gid: self.gid,
            mode: self.mode,
            atime: self.atime,
            modified: self.modified,
        }
    }
}

impl File {
    /// A record is well formed when it has a name.
    pub open spec fn wf(&self) -> bool {
        self.name@.len() > 0
    }
}

/// Records as plain values.
pub open spec fn views(files: Seq<File>) -> Seq<FileView> {
    Seq::new(files.len(), |i: int| files[i]@)
}

/// The answers of the file system to the seven questions about an entry's
/// type.
#[derive(Clone, Copy, Debug)]
pub struct EntryType {
    pub is_dir: bool,
    pub is_file: bool,
    pub is_symlink: bool,
    pub is_block_device: bool,
    pub is_char_device: bool,
    pub is_fifo: bool,
    pub is_socket: bool,
}

/// An entry's metadata as the file system reports it.
#[derive(Clone, Copy, Debug)]
pub struct EntryMetadata {
    pub size: u64,
    pub ino: u64,
    pub uid: u32,
    pub gid: u32,
    pub mode: u32,
    pub atime: i64,
    pub modified: u64,
}

/// One entry as it comes out of enumerating a directory, before it is
/// classified. A part that could not be read is `None`.
#[derive(Debug)]
pub struct RawEntry {
    pub name: String,
    pub file_type: Option<EntryType>,
    pub metadata: Option<EntryMetadata>,
}

/// A raw entry as plain values.
pub struct RawEntryView {
    pub name: Seq<char>,
    pub file_type: Option<EntryType>,
    pub metadata: Option<EntryMetadata>,
}

impl View for RawEntry {
    type V = RawEntryView;

    open spec fn view(&self) -> RawEntryView {
        RawEntryView { name: self.name@, file_type: self.file_type, metadata: self.metadata }
    }
}

impl RawEntry {
    /// An entry of a directory always has a name.
    pub open spec fn wf(&self) -> bool {
        self.name@.len() > 0
    }
}

/// The kind of an entry: that of the first question answered with yes, asked
/// in the order directory, regular file, symbolic link, block device,
/// character device, fifo, socket. `None` when every answer is no.
pub open spec fn kind_of(file_type: EntryType) -> Option<Kind> {
    if file_type.is_dir {
        Some(Kind::Dir)
    } else if file_type.is_file {
        Some(Kind::File)
    } else if file_type.is_symlink {
        Some(Kind::Link)
    } else if file_type.is_block_device {
        Some(Kind::Block)
    } else if file_type.is_char_device {
        Some(Kind::Char)
    } else if file_type.is_fifo {
        Some(Kind::Fifo)
    } else if file_type.is_socket {
        Some(Kind::Socket)
    } else {
        None
    }
}

/// The record that a raw entry stands for, or the reason why it stands for
/// none. An error carries the entry's name.
pub open spec fn record_of(entry: RawEntryView) -> Result<FileView, LSErrorView> {
    match entry.file_type {
        None => Err(LSErrorView { kind: LSErrorKind::MetadataUnavailable, message: entry.name }),
        Some(file_type) => match kind_of(file_type) {
            None => Err(LSErrorView { kind: LSErrorKind::UnknownFileType, message: entry.name }),
            Some(kind) => match entry.metadata {
                None => Err(
                    LSErrorView { kind: LSErrorKind::MetadataUnavailable, message: entry.name },
                ),
                Some(metadata) => Ok(
                    FileView {
                        name: entry.name,
                        kind,
                        size: metadata.size,
                        ino: metadata.ino,
                        uid: metadata.uid,
                        gid: metadata.gid,
                        mode: metadata.mode,
                        atime: metadata.atime,
                        modified: metadata.modified,
                    },
                ),
            },
        },
    }
}

/// Tells an entry's kind from the file system's answers.
pub fn classify(file_type: &EntryType) -> (kind: Option<Kind>)
    ensures
        kind == kind_of(*file_type),
{
    if file_type.is_dir {
        Some(Kind::Dir)
    } else if file_type.is_file {
        Some(Kind::File)
    } else if file_type.is_symlink {
        Some(Kind::Link)
    } else if file_type.is_block_device {
        Some(Kind::Block)
    } else if file_type.is_char_device {
        Some(Kind::Char)
    } else if file_type.is_fifo {
        Some(Kind::Fifo)
    } else if file_type.is_socket {
        Some(Kind::Socket)
    } else {
        None
    }
}

/// Turns a raw entry into a record.
///
/// Fails with `MetadataUnavailable` when the entry's type could not be read,
/// else with `UnknownFileType` when the type is none of the seven kinds, else
/// with `MetadataUnavailable` when the metadata could not be read. Nothing is
/// ever guessed.
pub fn to_file(entry: RawEntry) -> (result: Result<File, LSError>)
    requires
        entry.wf(),
    ensures
        match result {
            Ok(file) => record_of(entry@) == Ok::<FileView, LSErrorView>(file@) && file.wf(),
            Err(error) => record_of(entry@) == Err::<FileView, LSErrorView>(error@),
        },
{
    let file_type = match entry.file_type {
        Some(file_type) => file_type,
        None => {
            return Err(LSError { kind: LSErrorKind::MetadataUnavailable, message: entry.name });
        },
    };
    let kind = match classify(&file_type) {
        Some(kind) => kind,
        None => {
            return Err(LSError { kind: LSErrorKind::UnknownFileType, message: entry.name });
        },
    };
    let metadata = match entry.metadata {
        Some(metadata) => metadata,
        None => {
            return Err(LSError { kind: LSErrorKind::MetadataUnavailable, message: entry.name });
        },
    };
    Ok(
        File {
            name: entry.name,
            kind,
            size: metadata.size,
            ino: metadata.ino,
            uid: metadata.uid,
            gid: metadata.gid,
            mode: metadata.mode,
            atime: metadata.atime,
            modified: metadata.modified,
        },
    )
}

} // verus!
