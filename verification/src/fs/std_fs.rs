//! Files and directories as programs see them.
//!
//! # Durability
//!
//! A file has two pieces that become durable separately: its data, by [`File::sync_all`],
//! and the entry in its directory, by [`sync_dir`]. A new file whose directory was not
//! synced is lost in a crash, data or no data.
//!
//! # Limits
//!
//! - Permission bits are kept and returned but not enforced.
//! - A path that is written without a leading slash starts at the root.
//! - There are no locks.
//!
//! Every function takes the filesystem of the host that it runs on. What chance decides
//! is handed in: see [`Chance`].
use crate::error::{Cause, Error, ErrorKind};
use crate::fs::disk;
use crate::fs::model;
use crate::fs::model::{
    FsView, OpView, Times, DIR_MODE, FILE_MODE, MAX_SYMLINK_FOLLOWS, SYMLINK_MODE,
};
use crate::fs::state::Fs;
use crate::path;
use crate::path::{PathBuf, PathView};
use crate::time::Duration;
use vstd::prelude::*;

verus! {

/// The flag that asks for input and output that bypass the page cache.
pub const O_DIRECT: i32 = 0x4000;

/// What chance has decided of an operation on a file.
#[derive(Clone, Copy, Debug)]
pub struct Chance {
    /// Whether the disk fails.
    pub io_error: bool,
    /// Whether a read gives back a wrong byte.
    pub corrupt: bool,
    /// Whether a write becomes durable at once.
    pub sync: bool,
}

impl Chance {
    /// Nothing happens by chance.
    pub fn none() -> (r: Chance)
        ensures
            !r.io_error && !r.corrupt && !r.sync,
    {
        Chance { io_error: false, corrupt: false, sync: false }
    }
}

/// The result of a step of the filesystem's own, as an error of no category.
pub open spec fn as_other(r: Result<(), Cause>) -> Result<(), Error> {
    match r {
        Ok(_) => Ok(()),
        Err(cause) => Err(Error { kind: ErrorKind::Other, cause }),
    }
}

fn to_other(r: Result<(), Cause>) -> (s: Result<(), Error>)
    ensures
        s == as_other(r),
{
    match r {
        Ok(_) => Ok(()),
        Err(cause) => Err(Error::other(cause)),
    }
}

/// The state after the step, if it succeeded.
pub open spec fn if_ok(r: Result<(), Error>, after: FsView, before: FsView) -> FsView {
    if r is Ok {
        after
    } else {
        before
    }
}

/// Creates a directory.
///
/// It is not durable until its parent directory is synced.
pub fn create_dir(fs: &mut Fs, now: Duration, path: &[u8]) -> (r: Result<(), Error>)
    requires
        old(fs).wf(),
    ensures
        final(fs).wf(),
        r == as_other(model::mkdir_result(old(fs)@, path::parse(path@))),
        final(fs)@ == if_ok(
            r,
            model::pushed(
                old(fs)@,
                OpView::CreateDir { path: path::parse(path@), time: now, mode: DIR_MODE },
            ),
            old(fs)@,
        ),
{
    to_other(fs.mkdir(&PathBuf::new(path), now))
}

/// Creates a directory with the given permission bits.
pub fn create_dir_with_mode(fs: &mut Fs, now: Duration, path: &[u8], mode: u32) -> (r: Result<
    (),
    Error,
>)
    requires
        old(fs).wf(),
    ensures
        final(fs).wf(),
        r == as_other(model::mkdir_result(old(fs)@, path::parse(path@))),
        final(fs)@ == if_ok(
            r,
            model::pushed(
                old(fs)@,
                OpView::CreateDir { path: path::parse(path@), time: now, mode },
            ),
            old(fs)@,
        ),
{
    to_other(fs.mkdir_with_mode(&PathBuf::new(path), now, mode))
}

/// The filesystem after the directory has been created unless it stands there already, and
/// the result.
pub open spec fn ensured_dir(fs: FsView, path: PathView, time: Duration, mode: u32) -> (
    FsView,
    Result<(), Cause>,
) {
    if model::dir_exists(fs.live, path) {
        (fs, Ok(()))
    } else {
        let r = model::mkdir_result(fs, path);
        (
            if r is Ok {
                model::pushed(fs, OpView::CreateDir { path, time, mode })
            } else {
                fs
            },
            r,
        )
    }
}

/// The filesystem after the directory and those above it that are missing have been
/// created, outermost first, and the result. The first failure ends it.
pub open spec fn ensured_dirs(fs: FsView, path: PathView, time: Duration, mode: u32) -> (
    FsView,
    Result<(), Cause>,
)
    decreases path.len(),
{
    if path.len() == 0 {
        ensured_dir(fs, path, time, mode)
    } else {
        let (above, r) = ensured_dirs(fs, path.drop_last(), time, mode);
        if r is Ok {
            ensured_dir(above, path, time, mode)
        } else {
            (above, r)
        }
    }
}

fn ensure_dirs(fs: &mut Fs, path: &PathBuf, now: Duration, mode: u32) -> (r: Result<(), Cause>)
    requires
        old(fs).wf(),
    ensures
        final(fs).wf(),
        (final(fs)@, r) == ensured_dirs(old(fs)@, path@, now, mode),
    decreases path@.len(),
{
    if let Some(parent) = path.parent() {
        if let Err(cause) = ensure_dirs(fs, &parent, now, mode) {
            return Err(cause);
        }
    }
    if fs.dir_exists(path) {
        return Ok(());
    }
    fs.mkdir_with_mode(path, now, mode)
}

/// Creates a directory and those above it that are missing.
pub fn create_dir_all(fs: &mut Fs, now: Duration, path: &[u8]) -> (r: Result<(), Error>)
    requires
        old(fs).wf(),
    ensures
        final(fs).wf(),
        r == as_other(ensured_dirs(old(fs)@, path::parse(path@), now, DIR_MODE).1),
        final(fs)@ == ensured_dirs(old(fs)@, path::parse(path@), now, DIR_MODE).0,
{
    to_other(ensure_dirs(fs, &PathBuf::new(path), now, DIR_MODE))
}

/// Creates a directory and those above it that are missing, with the given permission
/// bits.
pub fn create_dir_all_with_mode(fs: &mut Fs, now: Duration, path: &[u8], mode: u32) -> (r: Result<
    (),
    Error,
>)
    requires
        old(fs).wf(),
    ensures
        final(fs).wf(),
        r == as_other(ensured_dirs(old(fs)@, path::parse(path@), now, mode).1),
        final(fs)@ == ensured_dirs(old(fs)@, path::parse(path@), now, mode).0,
{
    to_other(ensure_dirs(fs, &PathBuf::new(path), now, mode))
}

/// Removes an empty directory.
pub fn remove_dir(fs: &mut Fs, now: Duration, path: &[u8]) -> (r: Result<(), Error>)
    requires
        old(fs).wf(),
    ensures
        final(fs).wf(),
        r == as_other(model::rmdir_result(old(fs)@, path::parse(path@))),
        final(fs)@ == if_ok(
            r,
            model::pushed(old(fs)@, OpView::RemoveDir { path: path::parse(path@), time: now }),
            old(fs)@,
        ),
{
    to_other(fs.rmdir(&PathBuf::new(path), now))
}

/// Makes the entries of a directory durable.
///
/// That covers what was created in it, removed from it, renamed into or out of it, and
/// its own creation. The data of its files is made durable by [`File::sync_all`]. What programs
/// see stays as it is.
pub fn sync_dir(fs: &mut Fs, now: Duration, path: &[u8]) -> (r: Result<(), Error>)
    requires
        old(fs).wf(),
    ensures
        final(fs).wf(),
        r == (if model::dir_exists(old(fs)@.live, path::parse(path@)) {
            Ok::<(), Error>(())
        } else {
            Err(Error { kind: ErrorKind::Other, cause: Cause::NoSuchEntry })
        }),
        final(fs)@ == if_ok(
            r,
            model::dir_synced(old(fs)@, path::parse(path@), now),
            old(fs)@,
        ),
{
    to_other(fs.sync_dir(&PathBuf::new(path), now))
}

/// Removes a file or symbolic link.
///
/// The removal is not durable until the parent directory is synced.
pub fn remove_file(fs: &mut Fs, now: Duration, path: &[u8]) -> (r: Result<(), Error>)
    requires
        old(fs).wf(),
    ensures
        final(fs).wf(),
        r == (if model::unlink_result(old(fs)@, path::parse(path@)) is Ok {
            Ok::<(), Error>(())
        } else {
            Err(Error { kind: ErrorKind::NotFound, cause: Cause::NoSuchEntry })
        }),
        final(fs)@ == if_ok(
            r,
            model::pushed(
                model::uncached(old(fs)@, path::parse(path@)),
                OpView::RemoveFile { path: path::parse(path@), time: now },
            ),
            old(fs)@,
        ),
{
    match fs.unlink(&PathBuf::new(path), now) {
        Ok(_) => Ok(()),
        Err(cause) => Err(Error::not_found(cause)),
    }
}

/// Renames a file, directory or symbolic link. What stood at the destination is replaced.
///
/// The rename is not durable until the parent directory is synced.
pub fn rename(fs: &mut Fs, now: Duration, from: &[u8], to: &[u8]) -> (r: Result<(), Error>)
    requires
        old(fs).wf(),
    ensures
        final(fs).wf(),
        r == as_other(model::rename_result(old(fs)@, path::parse(from@), path::parse(to@))),
        final(fs)@ == if_ok(
            r,
            model::renamed(old(fs)@, path::parse(from@), path::parse(to@), now),
            old(fs)@,
        ),
{
    to_other(fs.rename(&PathBuf::new(from), &PathBuf::new(to), now))
}

/// The path without two dots: each of them takes back the name before it.
fn to_plain(path: &PathBuf) -> (r: PathBuf)
    ensures
        r@ == model::plain(path@),
{
    let mut r = PathBuf::root();
    let mut i: usize = 0;
    proof {
        assert(path@.take(0) =~= PathView::empty());
    }
    while i < path.depth()
        invariant
            i <= path@.len(),
            r@ == model::plain(path@.take(i as int)),
        decreases path@.len() - i,
    {
        proof {
            assert(path@.take(i + 1).drop_last() =~= path@.take(i as int));
            assert(path@.take(i + 1).last() == path@[i as int]);
        }
        let name = path.name_at(i);
        if path::names_parent(&name) {
            r.pop();
        } else {
            r.push_name(name);
        }
        i += 1;
    }
    proof {
        assert(path@.take(i as int) =~= path@);
    }
    r
}

/// Where `path` leads once the symbolic links that start there have been followed to the
/// end, or nothing where they lead in a circle.
pub(crate) fn follow(fs: &Fs, path: PathBuf) -> (r: Option<PathBuf>)
    ensures
        match r {
            Some(p) => model::followed(fs@.live, path@) == Some(p@),
            None => model::followed(fs@.live, path@) is None,
        },
{
    let mut place = path;
    let mut left: usize = MAX_SYMLINK_FOLLOWS;
    loop
        invariant
            model::followed(fs@.live, path@) == model::followed_by(fs@.live, place@, left as nat),
        decreases left,
    {
        match fs.read_link(&place) {
            Err(_) => {
                return Some(place);
            },
            Ok(target) => {
                if left == 0 {
                    return None;
                }
                left -= 1;
                let mut next = PathBuf::root();
                if !path::has_root(&target) {
                    next = place.clone();
                    next.pop();
                }
                next.append(target.as_slice());
                proof {
                    assert(PathView::empty() + path::parse(target@) =~= path::parse(target@));
                }
                place = to_plain(&next);
            },
        }
    }
}

/// Whether anything stands at the path. A symbolic link counts if something stands at the
/// end of it.
pub fn path_exists(fs: &Fs, path: &[u8]) -> (r: bool)
    ensures
        r == match model::followed(fs@.live, path::parse(path@)) {
            Some(p) => model::anything_at(fs@.live, p),
            None => false,
        },
{
    match follow(fs, PathBuf::new(path)) {
        Some(resolved) => fs.anything_at(&resolved),
        None => false,
    }
}

/// What kind of entry something is.
#[derive(Clone, Copy, Debug, PartialEq, Eq, Structural)]
pub struct FileType {
    /// Whether it is a directory.
    pub is_dir: bool,
    /// Whether it is a symbolic link.
    pub is_symlink: bool,
}

impl FileType {
    /// Whether it is a directory.
    pub fn is_dir(&self) -> (r: bool)
        ensures
            r == self.is_dir,
    {
        self.is_dir
    }

    /// Whether it is a regular file.
    pub fn is_file(&self) -> (r: bool)
        ensures
            r == (!self.is_dir && !self.is_symlink),
    {
        !self.is_dir && !self.is_symlink
    }

    /// Whether it is a symbolic link.
    pub fn is_symlink(&self) -> (r: bool)
        ensures
            r == self.is_symlink,
    {
        self.is_symlink
    }
}

/// The metadata of an entry.
#[derive(Clone, Copy, Debug, PartialEq, Eq, Structural)]
pub struct Metadata {
    /// The bytes of a file.
    pub len: u64,
    /// Whether it is a directory.
    pub is_dir: bool,
    /// Whether it is a symbolic link.
    pub is_symlink: bool,
    /// The creation time.
    pub crtime: Duration,
    /// The modification time.
    pub mtime: Duration,
    /// The change time.
    pub ctime: Duration,
    /// The permission bits.
    pub mode: u32,
    /// The number of names.
    pub nlink: u64,
}

impl Metadata {
    /// The bytes of the file.
    pub fn len(&self) -> (r: u64)
        ensures
            r == self.len,
    {
        self.len
    }

    /// Whether it is the metadata of a regular file.
    pub fn is_file(&self) -> (r: bool)
        ensures
            r == (!self.is_dir && !self.is_symlink),
    {
        !self.is_dir && !self.is_symlink
    }

    /// Whether it is the metadata of a directory.
    pub fn is_dir(&self) -> (r: bool)
        ensures
            r == self.is_dir,
    {
        self.is_dir
    }

    /// Whether it is the metadata of a symbolic link.
    pub fn is_symlink(&self) -> (r: bool)
        ensures
            r == self.is_symlink,
    {
        self.is_symlink
    }

    /// The kind of entry.
    pub fn file_type(&self) -> (r: FileType)
        ensures
            r.is_dir == self.is_dir,
            r.is_symlink == self.is_symlink,
    {
        FileType { is_dir: self.is_dir, is_symlink: self.is_symlink }
    }

    /// When the contents last changed, counted from the epoch.
    pub fn modified(&self) -> (r: Result<Duration, Error>)
        ensures
            r == Ok::<Duration, Error>(self.mtime),
    {
        Ok(self.mtime)
    }

    /// When the entry was last read, counted from the epoch. Access times are not tracked:
    /// this is the creation time.
    pub fn accessed(&self) -> (r: Result<Duration, Error>)
        ensures
            r == Ok::<Duration, Error>(self.crtime),
    {
        Ok(self.crtime)
    }

    /// When the entry was created, counted from the epoch.
    pub fn created(&self) -> (r: Result<Duration, Error>)
        ensures
            r == Ok::<Duration, Error>(self.crtime),
    {
        Ok(self.crtime)
    }

    /// The permissions.
    pub fn permissions(&self) -> (r: Permissions)
        ensures
            r.mode == self.mode,
    {
        Permissions { mode: self.mode }
    }

    /// The bits that say what kind of entry it is.
    pub open spec fn type_bits(self) -> u32 {
        if self.is_symlink {
            0o120000
        } else if self.is_dir {
            0o040000
        } else {
            0o100000
        }
    }

    /// The permission bits together with those that say what kind of entry it is.
    pub fn st_mode(&self) -> (r: u32)
        ensures
            r == self.type_bits() | self.mode,
    {
        let type_bits: u32 = if self.is_symlink {
            0o120000
        } else if self.is_dir {
            0o040000
        } else {
            0o100000
        };
        type_bits | self.mode
    }

    /// The number of names.
    pub fn nlink(&self) -> (r: u64)
        ensures
            r == self.nlink,
    {
        self.nlink
    }

    /// The number of blocks of 512 bytes that the bytes take.
    pub fn blocks(&self) -> (r: u64)
        ensures
            r == model::block_count(self.len as nat, 512),
    {
        if self.len == 0 {
            0
        } else {
            (self.len - 1) / 512 + 1
        }
    }
}

/// The times, or the epoch for each where there are none.
pub open spec fn times_or_epoch(times: Option<Times>) -> Times {
    match times {
        Some(t) => t,
        None => (Duration { nanos: 0 }, Duration { nanos: 0 }, Duration { nanos: 0 }),
    }
}

fn or_epoch(times: Option<Times>) -> (r: Times)
    ensures
        r == times_or_epoch(times),
{
    match times {
        Some(t) => t,
        None => (Duration::zero(), Duration::zero(), Duration::zero()),
    }
}

/// The metadata of the file with the number.
pub open spec fn file_metadata(fs: FsView, ino: u64) -> Metadata {
    let file = fs.live.files[ino];
    Metadata {
        len: file.content.len() as u64,
        is_dir: false,
        is_symlink: false,
        crtime: file.crtime,
        mtime: file.mtime,
        ctime: file.ctime,
        mode: file.mode,
        nlink: model::names_of(fs.live, ino).len() as u64,
    }
}

/// The metadata of the directory at `path`. It has two names at least: its own and the
/// one inside it.
pub open spec fn dir_metadata(fs: FsView, path: PathView) -> Metadata {
    let times = times_or_epoch(model::dir_times(fs.live, path));
    Metadata {
        len: 0,
        is_dir: true,
        is_symlink: false,
        crtime: times.0,
        mtime: times.1,
        ctime: times.2,
        mode: match model::dir_mode(fs.live, path) {
            Some(mode) => mode,
            None => DIR_MODE,
        },
        nlink: 2,
    }
}

/// The metadata of the symbolic link at `path`.
pub open spec fn link_metadata(fs: FsView, path: PathView) -> Metadata {
    let times = times_or_epoch(model::symlink_times(fs.live, path));
    Metadata {
        len: 0,
        is_dir: false,
        is_symlink: true,
        crtime: times.0,
        mtime: times.1,
        ctime: times.2,
        mode: SYMLINK_MODE,
        nlink: 1,
    }
}

/// The metadata of the file or directory at `path`.
pub open spec fn metadata_at(fs: FsView, path: PathView) -> Result<Metadata, Error> {
    if model::file_exists(fs.live, path) {
        Ok(file_metadata(fs, model::number_at(fs.live, path)))
    } else if model::dir_exists(fs.live, path) {
        Ok(dir_metadata(fs, path))
    } else {
        Err(Error { kind: ErrorKind::NotFound, cause: Cause::FileOrDirectoryNotFound })
    }
}

pub(crate) fn read_file_metadata(fs: &Fs, ino: u64) -> (r: Metadata)
    requires
        fs.wf(),
        ino < fs@.next_ino,
    ensures
        r == file_metadata(fs@, ino),
{
    let nlink: u64 = fs.file_nlink(ino);
    match fs.file_data(ino) {
        Some(f) => Metadata {
            len: f.content.len() as u64,
            is_dir: false,
            is_symlink: false,
            crtime: f.crtime,
            mtime: f.mtime,
            ctime: f.ctime,
            mode: f.mode,
            nlink,
        },
        None => {
            let zero = Duration::zero();
            Metadata {
                len: 0,
                is_dir: false,
                is_symlink: false,
                crtime: zero,
                mtime: zero,
                ctime: zero,
                mode: FILE_MODE,
                nlink,
            }
        },
    }
}

fn read_metadata(fs: &Fs, path: &PathBuf) -> (r: Result<Metadata, Error>)
    requires
        fs.wf(),
    ensures
        r == metadata_at(fs@, path@),
{
    if let Some(ino) = fs.file_number(path) {
        return Ok(read_file_metadata(fs, ino));
    }
    if fs.dir_exists(path) {
        let (crtime, mtime, ctime): Times = or_epoch(fs.dir_timestamps(path));
        let mode: u32 = match fs.dir_mode(path) {
            Some(mode) => mode,
            None => DIR_MODE,
        };
        return Ok(
            Metadata {
                len: 0,
                is_dir: true,
                is_symlink: false,
                crtime,
                mtime,
                ctime,
                mode,
                nlink: 2,
            },
        );
    }
    Err(Error::not_found(Cause::FileOrDirectoryNotFound))
}

/// The metadata of the file or directory at the path. A symbolic link is followed.
pub fn metadata(fs: &Fs, path: &[u8]) -> (r: Result<Metadata, Error>)
    requires
        fs.wf(),
    ensures
        r == match model::followed(fs@.live, path::parse(path@)) {
            Some(p) => metadata_at(fs@, p),
            None => Err(Error { kind: ErrorKind::NotFound, cause: Cause::NoSuchEntry }),
        },
{
    match follow(fs, PathBuf::new(path)) {
        Some(resolved) => read_metadata(fs, &resolved),
        None => Err(Error::not_found(Cause::NoSuchEntry)),
    }
}

/// What the metadata at `path` is when a symbolic link there is not followed.
pub open spec fn symlink_metadata_at(fs: FsView, path: PathView) -> Result<Metadata, Error> {
    if model::symlink_exists(fs.live, path) {
        Ok(link_metadata(fs, path))
    } else {
        metadata_at(fs, path)
    }
}

fn read_symlink_metadata(fs: &Fs, path: &PathBuf) -> (r: Result<Metadata, Error>)
    requires
        fs.wf(),
    ensures
        r == symlink_metadata_at(fs@, path@),
{
    if fs.symlink_exists(path) {
        let (crtime, mtime, ctime): Times = or_epoch(fs.symlink_timestamps(path));
        return Ok(
            Metadata {
                len: 0,
                is_dir: false,
                is_symlink: true,
                crtime,
                mtime,
                ctime,
                mode: SYMLINK_MODE,
                nlink: 1,
            },
        );
    }
    read_metadata(fs, path)
}

/// The metadata of the entry at the path. A symbolic link is not followed.
pub fn symlink_metadata(fs: &Fs, path: &[u8]) -> (r: Result<Metadata, Error>)
    requires
        fs.wf(),
    ensures
        r == symlink_metadata_at(fs@, path::parse(path@)),
{
    read_symlink_metadata(fs, &PathBuf::new(path))
}

/// An entry of a directory.
pub struct DirEntry {
    /// The full path of the entry.
    pub path: PathBuf,
}

impl DirEntry {
    /// The full path of the entry.
    pub fn path(&self) -> (r: PathBuf)
        ensures
            r@ == self.path@,
    {
        self.path.clone()
    }

    /// The last name of the path, empty for the root.
    pub fn file_name(&self) -> (r: Vec<u8>)
        ensures
            r@ == (if self.path@.len() == 0 { Seq::<u8>::empty() } else { self.path@.last() }),
    {
        match self.path.file_name() {
            Some(name) => name,
            None => Vec::new(),
        }
    }

    /// The metadata of the entry. A symbolic link is not followed.
    pub fn metadata(&self, fs: &Fs) -> (r: Result<Metadata, Error>)
        requires
            fs.wf(),
        ensures
            r == symlink_metadata_at(fs@, self.path@),
    {
        read_symlink_metadata(fs, &self.path)
    }

    /// The kind of the entry. A symbolic link is not followed.
    pub fn file_type(&self, fs: &Fs) -> (r: Result<FileType, Error>)
        requires
            fs.wf(),
        ensures
            r == match symlink_metadata_at(fs@, self.path@) {
                Ok(m) => Ok(FileType { is_dir: m.is_dir, is_symlink: m.is_symlink }),
                Err(e) => Err(e),
            },
    {
        match self.metadata(fs) {
            Ok(meta) => Ok(meta.file_type()),
            Err(e) => Err(e),
        }
    }
}

/// The entries of a directory, to be taken one by one.
pub struct ReadDir {
    /// The paths of the entries that are left.
    pub entries: Vec<PathBuf>,
}

impl ReadDir {
    /// Takes an entry that is left.
    pub fn next_entry(&mut self) -> (r: Option<DirEntry>)
        ensures
            match r {
                Some(e) => old(self).entries@ == final(self).entries@.push(e.path),
                None => old(self).entries@.len() == 0 && final(self).entries@ == old(
                    self,
                ).entries@,
            },
    {
        match self.entries.pop() {
            Some(path) => {
                proof {
                    assert(old(self).entries@ =~= self.entries@.push(path));
                }
                Some(DirEntry { path })
            },
            None => None,
        }
    }
}

/// The entries of a directory, each once, in no order in particular.
pub fn read_dir(fs: &Fs, path: &[u8]) -> (r: Result<ReadDir, Error>)
    ensures
        match r {
            Ok(dir) => {
                &&& model::dir_exists(fs@.live, path::parse(path@))
                &&& disk::is_distinct(dir.entries@)
                &&& forall|p: PathView| #[trigger]
                    crate::collections::lists(dir.entries@, p) <==> model::anything_at(
                        fs@.live,
                        p,
                    ) && path::is_child(p, path::parse(path@))
            },
            Err(e) => {
                &&& !model::dir_exists(fs@.live, path::parse(path@))
                &&& e == (Error { kind: ErrorKind::NotFound, cause: Cause::DirectoryNotFound })
            },
        },
{
    let dir = PathBuf::new(path);
    if !fs.dir_exists(&dir) {
        return Err(Error::not_found(Cause::DirectoryNotFound));
    }
    Ok(ReadDir { entries: fs.dir_entries(&dir) })
}

/// The permissions of an entry. They are kept and returned but not enforced.
#[derive(Clone, Copy, Debug, PartialEq, Eq, Structural)]
pub struct Permissions {
    /// The permission bits.
    pub mode: u32,
}

impl Permissions {
    /// Whether the owner may not write.
    pub fn readonly(&self) -> (r: bool)
        ensures
            r == (self.mode & 0o200 == 0),
    {
        (self.mode & 0o200) == 0
    }

    /// Takes the right to write from everyone, or gives it to the owner.
    pub fn set_readonly(&mut self, readonly: bool)
        ensures
            final(self).mode == (if readonly {
                old(self).mode & !0o222u32
            } else {
                old(self).mode | 0o200
            }),
    {
        if readonly {
            self.mode = self.mode & !0o222u32;
        } else {
            self.mode = self.mode | 0o200;
        }
    }

    /// Permissions with the given bits.
    pub fn from_mode(mode: u32) -> (r: Permissions)
        ensures
            r.mode == mode,
    {
        Permissions { mode }
    }

    /// The permission bits.
    pub fn mode(&self) -> (r: u32)
        ensures
            r == self.mode,
    {
        self.mode
    }

    /// Sets the permission bits.
    pub fn set_mode(&mut self, mode: u32)
        ensures
            final(self).mode == mode,
    {
        self.mode = mode;
    }
}

/// Changes the permissions of a file or directory.
pub fn set_permissions(fs: &mut Fs, now: Duration, path: &[u8], perm: Permissions) -> (r: Result<
    (),
    Error,
>)
    requires
        old(fs).wf(),
    ensures
        final(fs).wf(),
        r == as_other(model::set_permissions_result(old(fs)@, path::parse(path@))),
        final(fs)@ == if_ok(
            r,
            model::pushed(
                old(fs)@,
                OpView::SetPermissions { path: path::parse(path@), mode: perm.mode, time: now },
            ),
            old(fs)@,
        ),
{
    to_other(fs.set_permissions(&PathBuf::new(path), perm.mode, now))
}

/// Creates a symbolic link at `link` that points to `original`.
pub fn symlink(fs: &mut Fs, now: Duration, original: &[u8], link: &[u8]) -> (r: Result<(), Error>)
    requires
        old(fs).wf(),
    ensures
        final(fs).wf(),
        r == as_other(model::mkdir_result(old(fs)@, path::parse(link@))),
        final(fs)@ == if_ok(
            r,
            model::pushed(
                old(fs)@,
                OpView::CreateSymlink {
                    path: path::parse(link@),
                    target: original@,
                    time: now,
                },
            ),
            old(fs)@,
        ),
{
    to_other(fs.create_symlink(&PathBuf::new(link), original, now))
}

/// The text of the path that a symbolic link points to.
pub fn read_link(fs: &Fs, path: &[u8]) -> (r: Result<Vec<u8>, Error>)
    ensures
        match r {
            Ok(t) => model::read_link(fs@.live, path::parse(path@)) == Some(t@),
            Err(e) => {
                &&& model::read_link(fs@.live, path::parse(path@)) is None
                &&& e == (Error { kind: ErrorKind::NotFound, cause: Cause::NoSuchEntry })
            },
        },
{
    match fs.read_link(&PathBuf::new(path)) {
        Ok(target) => Ok(target),
        Err(cause) => Err(Error::not_found(cause)),
    }
}

/// Makes `link` a second name of the file at `original`.
pub fn hard_link(fs: &mut Fs, now: Duration, original: &[u8], link: &[u8]) -> (r: Result<
    (),
    Error,
>)
    requires
        old(fs).wf(),
    ensures
        final(fs).wf(),
        r == as_other(
            model::hard_link_result(old(fs)@, path::parse(link@), path::parse(original@)),
        ),
        final(fs)@ == if_ok(
            r,
            model::pushed(
                old(fs)@,
                OpView::CreateHardLink {
                    path: path::parse(link@),
                    ino: model::number_at(old(fs)@.live, path::parse(original@)),
                    time: now,
                },
            ),
            old(fs)@,
        ),
{
    to_other(fs.create_hard_link(&PathBuf::new(link), &PathBuf::new(original), now))
}

/// Options for creating directories.
#[derive(Clone, Copy, Debug)]
pub struct DirBuilder {
    /// Whether to create the directories above too.
    pub recursive: bool,
    /// The permission bits.
    pub mode: u32,
}

impl DirBuilder {
    /// One directory, with the default permission bits.
    pub fn new() -> (r: DirBuilder)
        ensures
            !r.recursive,
            r.mode == DIR_MODE,
    {
        DirBuilder { recursive: false, mode: DIR_MODE }
    }

    /// Sets whether to create the directories above too.
    pub fn recursive(&mut self, recursive: bool) -> (r: &mut Self)
        ensures
            *r == (DirBuilder { recursive, ..*old(self) }),
            *final(self) == *final(r),
    {
        self.recursive = recursive;
        self
    }

    /// Sets the permission bits.
    pub fn mode(&mut self, mode: u32) -> (r: &mut Self)
        ensures
            *r == (DirBuilder { mode, ..*old(self) }),
            *final(self) == *final(r),
    {
        self.mode = mode;
        self
    }

    /// Creates the directory at the path.
    pub fn create(&self, fs: &mut Fs, now: Duration, path: &[u8]) -> (r: Result<(), Error>)
        requires
            old(fs).wf(),
        ensures
            final(fs).wf(),
            self.recursive ==> {
                &&& r == as_other(ensured_dirs(old(fs)@, path::parse(path@), now, self.mode).1)
                &&& final(fs)@ == ensured_dirs(old(fs)@, path::parse(path@), now, self.mode).0
            },
            !self.recursive ==> {
                &&& r == as_other(model::mkdir_result(old(fs)@, path::parse(path@)))
                &&& final(fs)@ == if_ok(
                    r,
                    model::pushed(
                        old(fs)@,
                        OpView::CreateDir {
                            path: path::parse(path@),
                            time: now,
                            mode: self.mode,
                        },
                    ),
                    old(fs)@,
                )
            },
    {
        if self.recursive {
            create_dir_all_with_mode(fs, now, path, self.mode)
        } else {
            create_dir_with_mode(fs, now, path, self.mode)
        }
    }
}

} // verus!
