//! The operations on a disk, and what stands on it.
use crate::fs::model;
use crate::fs::model::{
    DirView, FileView, HandleView, NodeView, OpView, SymlinkView, DIR_MODE, FILE_MODE,
};
use crate::path::PathBuf;
use crate::time::Duration;
use vstd::prelude::*;

verus! {

/// An operation on a disk. Files go by their numbers.
#[allow(inconsistent_fields)]
pub enum PendingOp {
    /// Create a file (durable when the parent directory is synced).
    CreateFile { path: PathBuf, ino: u64, time: Duration, mode: u32 },
    /// Create a directory (durable when the parent directory is synced).
    CreateDir { path: PathBuf, time: Duration, mode: u32 },
    /// Create a symbolic link (durable when the parent directory is synced).
    CreateSymlink { path: PathBuf, target: Vec<u8>, time: Duration },
    /// Create a hard link (durable when the parent directory is synced).
    CreateHardLink { path: PathBuf, ino: u64, time: Duration },
    /// Write data to a file (durable when the file is synced).
    Write { ino: u64, offset: u64, data: Vec<u8>, time: Duration },
    /// Truncate or extend a file (durable when the file is synced).
    SetLen { ino: u64, len: u64, time: Duration },
    /// Change the permission bits of a file or directory.
    SetPermissions { path: PathBuf, mode: u32, time: Duration },
    /// Rename an entry, with all below it (durable when the parent directory is synced).
    Rename { from: PathBuf, to: PathBuf, time: Duration },
    /// Remove a file or symbolic link (durable when the parent directory is synced).
    RemoveFile { path: PathBuf, time: Duration },
    /// Remove a directory (durable when the parent directory is synced).
    RemoveDir { path: PathBuf, time: Duration },
    /// Remove an entry with all below it (durable when the parent directory is synced).
    RemoveTree { path: PathBuf, time: Duration },
}

impl View for PendingOp {
    type V = OpView;

    open spec fn view(&self) -> OpView {
        match *self {
            PendingOp::CreateFile { path, ino, time, mode } => OpView::CreateFile {
                path: path@,
                ino,
                time,
                mode,
            },
            PendingOp::CreateDir { path, time, mode } => OpView::CreateDir {
                path: path@,
                time,
                mode,
            },
            PendingOp::CreateSymlink { path, target, time } => OpView::CreateSymlink {
                path: path@,
                target: target@,
                time,
            },
            PendingOp::CreateHardLink { path, ino, time } => OpView::CreateHardLink {
                path: path@,
                ino,
                time,
            },
            PendingOp::Write { ino, offset, data, time } => OpView::Write {
                ino,
                offset,
                data: data@,
                time,
            },
            PendingOp::SetLen { ino, len, time } => OpView::SetLen { ino, len, time },
            PendingOp::SetPermissions { path, mode, time } => OpView::SetPermissions {
                path: path@,
                mode,
                time,
            },
            PendingOp::Rename { from, to, time } => OpView::Rename { from: from@, to: to@, time },
            PendingOp::RemoveFile { path, time } => OpView::RemoveFile { path: path@, time },
            PendingOp::RemoveDir { path, time } => OpView::RemoveDir { path: path@, time },
            PendingOp::RemoveTree { path, time } => OpView::RemoveTree { path: path@, time },
        }
    }
}

/// A file on the disk: its bytes and its metadata.
///
/// Access times are not tracked.
pub struct FileData {
    /// Its bytes.
    pub content: Vec<u8>,
    /// Creation time (set once, never changes).
    pub crtime: Duration,
    /// Modification time (updated on writes).
    pub mtime: Duration,
    /// Change time (updated on any change of the metadata, and on writes).
    pub ctime: Duration,
    /// Permission bits.
    pub mode: u32,
}

impl View for FileData {
    type V = FileView;

    open spec fn view(&self) -> FileView {
        FileView {
            content: self.content@,
            crtime: self.crtime,
            mtime: self.mtime,
            ctime: self.ctime,
            mode: self.mode,
        }
    }
}

impl FileData {
    /// A new empty file with the default permission bits.
    pub fn new(now: Duration) -> (r: FileData)
        ensures
            r@ == model::fresh_file(now, FILE_MODE),
    {
        FileData::with_mode(now, FILE_MODE)
    }

    /// A new empty file with the given permission bits.
    pub fn with_mode(now: Duration, mode: u32) -> (r: FileData)
        ensures
            r@ == model::fresh_file(now, mode),
    {
        let r = FileData { content: Vec::new(), crtime: now, mtime: now, ctime: now, mode };
        proof {
            assert(r@.content =~= seq![]);
        }
        r
    }

    /// The same file again.
    pub fn duplicate(&self) -> (r: FileData)
        ensures
            r@ == self@,
    {
        FileData {
            content: crate::path::bytes_copy(&self.content),
            crtime: self.crtime,
            mtime: self.mtime,
            ctime: self.ctime,
            mode: self.mode,
        }
    }
}

/// A directory on the disk.
#[derive(Clone, Copy)]
pub struct DirData {
    /// Creation time (set once, never changes).
    pub crtime: Duration,
    /// Modification time (updated when the entries change).
    pub mtime: Duration,
    /// Change time (updated on any change of the metadata).
    pub ctime: Duration,
    /// Permission bits.
    pub mode: u32,
}

impl View for DirData {
    type V = DirView;

    open spec fn view(&self) -> DirView {
        DirView { crtime: self.crtime, mtime: self.mtime, ctime: self.ctime, mode: self.mode }
    }
}

impl DirData {
    /// A new directory with the default permission bits.
    pub fn new(now: Duration) -> (r: DirData)
        ensures
            r@ == model::fresh_dir(now, DIR_MODE),
    {
        DirData::with_mode(now, DIR_MODE)
    }

    /// A new directory with the given permission bits.
    pub fn with_mode(now: Duration, mode: u32) -> (r: DirData)
        ensures
            r@ == model::fresh_dir(now, mode),
    {
        DirData { crtime: now, mtime: now, ctime: now, mode }
    }
}

/// A symbolic link on the disk.
pub struct SymlinkData {
    /// The text of the path that the link points to.
    pub target: Vec<u8>,
    /// Creation time.
    pub crtime: Duration,
    /// Modification time.
    pub mtime: Duration,
    /// Change time.
    pub ctime: Duration,
}

impl View for SymlinkData {
    type V = SymlinkView;

    open spec fn view(&self) -> SymlinkView {
        SymlinkView {
            target: self.target@,
            crtime: self.crtime,
            mtime: self.mtime,
            ctime: self.ctime,
        }
    }
}

impl SymlinkData {
    /// A new symbolic link.
    pub fn new(target: Vec<u8>, now: Duration) -> (r: SymlinkData)
        ensures
            r@ == model::fresh_symlink(target@, now),
    {
        SymlinkData { target, crtime: now, mtime: now, ctime: now }
    }
}

/// What stands at a path.
pub enum Node {
    /// A name of the file with the number.
    File(u64),
    /// A directory.
    Dir(DirData),
    /// A symbolic link.
    Symlink(SymlinkData),
}

impl View for Node {
    type V = NodeView;

    open spec fn view(&self) -> NodeView {
        match *self {
            Node::File(ino) => NodeView::File(ino),
            Node::Dir(dir) => NodeView::Dir(dir@),
            Node::Symlink(link) => NodeView::Symlink(link@),
        }
    }
}

impl Node {
    /// The same again.
    pub fn duplicate(&self) -> (r: Node)
        ensures
            r@ == self@,
    {
        match self {
            Node::File(ino) => Node::File(*ino),
            Node::Dir(dir) => Node::Dir(*dir),
            Node::Symlink(link) => Node::Symlink(
                SymlinkData {
                    target: crate::path::bytes_copy(&link.target),
                    crtime: link.crtime,
                    mtime: link.mtime,
                    ctime: link.ctime,
                },
            ),
        }
    }
}

/// An open file.
pub struct Handle {
    /// The number of the file.
    pub ino: u64,
    /// The path that it was opened with.
    pub path: PathBuf,
}

impl View for Handle {
    type V = HandleView;

    open spec fn view(&self) -> HandleView {
        HandleView { ino: self.ino, path: self.path@ }
    }
}

} // verus!
