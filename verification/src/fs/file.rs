//! Open files.
use crate::error::{Cause, Error, ErrorKind};
use crate::fs::model;
use crate::fs::model::{FsView, HandleView, OpView, FILE_MODE};
use crate::fs::state::Fs;
use crate::fs::std_fs;
use crate::fs::std_fs::{Chance, Metadata, O_DIRECT};
use crate::path;
use crate::path::{PathBuf, PathView};
use crate::pattern;
use crate::random::{random_u8, random_up_to};
use crate::time::Duration;
use rand::rngs::SmallRng;
use vstd::prelude::*;

verus! {

/// A read that gave back wrong data.
pub struct FsCorruption {
    /// The path of the file.
    pub path: PathBuf,
    /// Where in the file the wrong bytes were read.
    pub offset: u64,
    /// How many bytes were wrong.
    pub len: usize,
}

/// An open file.
#[derive(Debug)]
pub struct File {
    /// The descriptor.
    pub fd: u64,
    /// Whether the file was opened for reading.
    pub readable: bool,
    /// Whether the file was opened for writing.
    pub writable: bool,
    /// Whether writes go to the end of the file.
    pub append_mode: bool,
    /// Whether reads and writes bypass the page cache.
    pub direct_io: bool,
    /// Where the next read or write starts.
    pub cursor: u64,
}

/// Where to move the cursor of a file.
#[derive(Clone, Copy, Debug, PartialEq, Eq, Structural)]
pub enum SeekFrom {
    /// So many bytes from the start.
    Start(u64),
    /// So many bytes from the end.
    End(i64),
    /// So many bytes from where it is.
    Current(i64),
}

/// Whether the address of a buffer, the number of its bytes and an offset are multiples
/// of the alignment.
pub open spec fn aligned(alignment: usize, addr: usize, len: nat, offset: u64) -> bool {
    addr % alignment == 0 && len % (alignment as nat) == 0 && offset % (alignment as u64) == 0
}

fn is_aligned(alignment: usize, addr: usize, len: usize, offset: u64) -> (r: bool)
    requires
        alignment > 0,
    ensures
        r == aligned(alignment, addr, len as nat, offset),
{
    addr % alignment == 0 && len % alignment == 0 && offset % (alignment as u64) == 0
}

/// The bytes with a bit or more of the one at `at` flipped, as `byte` says; the lowest bit
/// where `byte` says none.
pub open spec fn corrupted(bytes: Seq<u8>, at: int, byte: u8) -> Seq<u8> {
    bytes.update(
        at,
        bytes[at] ^ (if byte == 0 {
            1u8
        } else {
            byte
        }),
    )
}

/// Whether `got` is `bytes` with a bit or more of the one at `at` flipped.
pub open spec fn is_corrupted(bytes: Seq<u8>, got: Seq<u8>, at: int) -> bool {
    exists|byte: u8| got == #[trigger] corrupted(bytes, at, byte)
}

proof fn lemma_is_corrupted(bytes: Seq<u8>, at: int, byte: u8)
    ensures
        is_corrupted(bytes, corrupted(bytes, at, byte), at),
{
}

/// Whether `got` is `bytes` with a bit or more of one of them flipped.
pub open spec fn corrupted_somewhere(bytes: Seq<u8>, got: Seq<u8>) -> bool {
    exists|at: int| 0 <= at && at < bytes.len() && #[trigger] is_corrupted(bytes, got, at)
}

/// Flips bits of the byte at `at`.
pub fn corrupt_byte(buf: &mut [u8], at: usize, byte: u8)
    requires
        at < old(buf)@.len(),
    ensures
        final(buf)@ == corrupted(old(buf)@, at as int, byte),
{
    let bits: u8 = if byte == 0 {
        1
    } else {
        byte
    };
    let wrong: u8 = buf[at] ^ bits;
    buf[at] = wrong;
    proof {
        assert(buf@ =~= corrupted(old(buf)@, at as int, byte));
    }
}

/// What stands between the file and a read into a buffer at `addr` of `len` bytes.
pub open spec fn read_error(
    fs: FsView,
    file: File,
    addr: usize,
    len: nat,
    offset: u64,
    io_error: bool,
) -> Option<Error> {
    if !file.readable {
        Some(Error { kind: ErrorKind::PermissionDenied, cause: Cause::NotReadable })
    } else {
        access_error(fs, file, addr, len, offset, io_error)
    }
}

/// What stands between the file and a write from a buffer at `addr` of `len` bytes, but
/// for the capacity of the disk.
pub open spec fn write_error(
    fs: FsView,
    file: File,
    addr: usize,
    len: nat,
    offset: u64,
    io_error: bool,
) -> Option<Error> {
    if !file.writable {
        Some(Error { kind: ErrorKind::PermissionDenied, cause: Cause::NotWritable })
    } else {
        access_error(fs, file, addr, len, offset, io_error)
    }
}

/// What stands between the file and a read or write that it permits.
pub open spec fn access_error(
    fs: FsView,
    file: File,
    addr: usize,
    len: nat,
    offset: u64,
    io_error: bool,
) -> Option<Error> {
    if file.direct_io && !aligned(fs.config.direct_io_alignment, addr, len, offset) {
        Some(Error { kind: ErrorKind::InvalidInput, cause: Cause::Misaligned })
    } else if io_error {
        Some(Error { kind: ErrorKind::Other, cause: Cause::Io })
    } else if !fs.handles.contains_key(file.fd) {
        Some(Error { kind: ErrorKind::NotFound, cause: Cause::HandleNotFound })
    } else {
        None
    }
}

/// Whether a read from `offset` of the file on into a buffer at `addr` that holds `before`
/// can give `r` and leave `after` in the buffer, when chance has decided what happens. Only
/// a byte that is corrupted by chance leaves a choice.
pub open spec fn reads_at(
    fs: FsView,
    file: File,
    addr: usize,
    offset: u64,
    chance: Chance,
    before: Seq<u8>,
    after: Seq<u8>,
    r: Result<(usize, Option<FsCorruption>), Error>,
) -> bool {
    match read_error(fs, file, addr, before.len(), offset, chance.io_error) {
        Some(e) => r == Err::<(usize, Option<FsCorruption>), Error>(e) && after == before,
        None => r is Ok && {
            let handle = fs.handles[file.fd];
            let content = fs.live.files[handle.ino].content;
            let n = r->Ok_0.0;
            let clean = model::read_bytes(content, offset, before.len()) + before.skip(n as int);
            &&& n == model::read_len(content, offset, before.len())
            &&& match r->Ok_0.1 {
                None => (n == 0 || !chance.corrupt) && after == clean,
                Some(what) => {
                    &&& n > 0 && chance.corrupt
                    &&& what.path@ == handle.path
                    &&& what.len == 1
                    &&& offset <= what.offset && what.offset < offset + n
                    &&& is_corrupted(clean, after, what.offset - offset)
                },
            }
        },
    }
}

/// How many more bytes the file with the number has after a write of `len` bytes at `offset`.
pub open spec fn added_by(fs: FsView, ino: u64, offset: u64, len: nat) -> u64 {
    let current = fs.live.files[ino].content.len();
    if offset + len > current {
        (offset + len - current) as u64
    } else {
        0
    }
}

/// Whether a write to the file with the number of `len` bytes at `offset` fits on the disk.
pub open spec fn has_room(fs: FsView, ino: u64, offset: u64, len: nat) -> bool {
    added_by(fs, ino, offset, len) == 0 || !model::exceeds(fs, added_by(fs, ino, offset, len))
}

/// The filesystem after the bytes have been written to the file with the number; by chance
/// they become durable at once.
pub open spec fn after_write(
    fs: FsView,
    ino: u64,
    offset: u64,
    data: Seq<u8>,
    now: Duration,
    sync: bool,
) -> FsView {
    let written = if data.len() == 0 {
        fs
    } else {
        model::pushed(fs, OpView::Write { ino, offset, data, time: now })
    };
    maybe_synced(written, ino, sync)
}

/// The filesystem after chance has decided whether to make the data of the file with the
/// number durable.
pub open spec fn maybe_synced(fs: FsView, ino: u64, sync: bool) -> FsView {
    if sync {
        model::file_synced(fs, ino)
    } else {
        fs
    }
}

impl File {
    /// Whether the cursor is at a place that a file can have.
    pub open spec fn wf(self) -> bool {
        self.cursor <= i64::MAX
    }

    /// Opens a file for reading.
    pub fn open(fs: &mut Fs, now: Duration, path: &[u8]) -> (r: Result<File, Error>)
        requires
            old(fs).wf(),
            model::has_numbers(old(fs)@),
        ensures
            final(fs).wf(),
            (final(fs)@, r) == opened(old(fs)@, read_options(), now, path@),
    {
        let mut options = OpenOptions::new();
        options.read = true;
        options.open(fs, now, path)
    }

    /// Opens a file for writing. It is created if it does not exist, and cut to nothing if
    /// it does.
    pub fn create(fs: &mut Fs, now: Duration, path: &[u8]) -> (r: Result<File, Error>)
        requires
            old(fs).wf(),
            model::has_numbers(old(fs)@),
        ensures
            final(fs).wf(),
            (final(fs)@, r) == opened(old(fs)@, create_options(), now, path@),
    {
        let mut options = OpenOptions::new();
        options.write = true;
        options.create = true;
        options.truncate = true;
        options.open(fs, now, path)
    }

    /// The metadata of the file.
    pub fn metadata(&self, fs: &Fs) -> (r: Result<Metadata, Error>)
        requires
            fs.wf(),
        ensures
            r == (if fs@.handles.contains_key(self.fd) {
                Ok::<Metadata, Error>(std_fs::file_metadata(fs@, fs@.handles[self.fd].ino))
            } else {
                Err(Error { kind: ErrorKind::NotFound, cause: Cause::HandleNotFound })
            }),
    {
        match fs.handle(self.fd) {
            Some(handle) => Ok(std_fs::read_file_metadata(fs, handle.ino)),
            None => Err(Error::not_found(Cause::HandleNotFound)),
        }
    }

    /// Cuts or extends the file. By chance the change becomes durable at once.
    pub fn set_len(&self, fs: &mut Fs, now: Duration, size: u64, chance: Chance) -> (r: Result<
        (),
        Error,
    >)
        requires
            old(fs).wf(),
            size <= isize::MAX,
        ensures
            final(fs).wf(),
            r == (if !self.writable {
                Err::<(), Error>(
                    Error { kind: ErrorKind::PermissionDenied, cause: Cause::NotWritable },
                )
            } else if !old(fs)@.handles.contains_key(self.fd) {
                Err(Error { kind: ErrorKind::NotFound, cause: Cause::HandleNotFound })
            } else {
                Ok(())
            }),
            r is Err ==> final(fs)@ == old(fs)@,
            r is Ok ==> {
                let handle = old(fs)@.handles[self.fd];
                final(fs)@ == maybe_synced(
                    model::pushed(
                        model::uncached(old(fs)@, handle.path),
                        OpView::SetLen { ino: handle.ino, len: size, time: now },
                    ),
                    handle.ino,
                    chance.sync,
                )
            },
    {
        if !self.writable {
            return Err(Error::new(ErrorKind::PermissionDenied, Cause::NotWritable));
        }
        match fs.handle(self.fd) {
            Some(handle) => {
                let ino: u64 = handle.ino;
                let path = handle.path.clone();
                fs.set_file_len(ino, &path, size, now);
                if chance.sync {
                    fs.flush_file_data(ino);
                }
                Ok(())
            },
            None => Err(Error::not_found(Cause::HandleNotFound)),
        }
    }

    /// Makes the data of the file durable, but not its directory entry: a new file survives
    /// a crash only if its directory is synced too.
    pub fn sync_all(&self, fs: &mut Fs) -> (r: Result<(), Error>)
        requires
            old(fs).wf(),
        ensures
            final(fs).wf(),
            (final(fs)@, r) == synced(old(fs)@, self.fd),
    {
        match fs.handle(self.fd) {
            Some(handle) => {
                let ino: u64 = handle.ino;
                fs.flush_file_data(ino);
                Ok(())
            },
            None => Err(Error::not_found(Cause::HandleNotFound)),
        }
    }

    /// Makes the data of the file durable. This does the same as [`File::sync_all`].
    pub fn sync_data(&self, fs: &mut Fs) -> (r: Result<(), Error>)
        requires
            old(fs).wf(),
        ensures
            final(fs).wf(),
            (final(fs)@, r) == synced(old(fs)@, self.fd),
    {
        self.sync_all(fs)
    }

    /// Opens the file once more. The new handle has a cursor of its own.
    pub fn try_clone(&self, fs: &mut Fs) -> (r: Result<File, Error>)
        requires
            old(fs).wf(),
            model::has_numbers(old(fs)@),
        ensures
            final(fs).wf(),
            match r {
                Ok(file) => {
                    &&& old(fs)@.handles.contains_key(self.fd)
                    &&& file == (File { fd: old(fs)@.next_fd, cursor: 0, ..*self })
                    &&& final(fs)@ == handed_out(old(fs)@, old(fs)@.handles[self.fd])
                },
                Err(e) => {
                    &&& !old(fs)@.handles.contains_key(self.fd)
                    &&& e == (Error { kind: ErrorKind::NotFound, cause: Cause::HandleNotFound })
                    &&& final(fs)@ == old(fs)@
                },
            },
    {
        match fs.handle(self.fd) {
            Some(handle) => {
                let ino: u64 = handle.ino;
                let path = handle.path.clone();
                let fd: u64 = fs.open_handle(ino, path);
                Ok(
                    File {
                        fd,
                        readable: self.readable,
                        writable: self.writable,
                        append_mode: self.append_mode,
                        direct_io: self.direct_io,
                        cursor: 0,
                    },
                )
            },
            None => Err(Error::not_found(Cause::HandleNotFound)),
        }
    }

    /// Whether reads and writes bypass the page cache.
    pub fn is_direct_io(&self) -> (r: bool)
        ensures
            r == self.direct_io,
    {
        self.direct_io
    }

    /// The path that the file was opened with, as long as it is open.
    pub fn path(&self, fs: &Fs) -> (r: Option<PathBuf>)
        requires
            fs.wf(),
        ensures
            match r {
                Some(p) => fs@.handles.contains_key(self.fd) && p@ == fs@.handles[self.fd].path,
                None => !fs@.handles.contains_key(self.fd),
            },
    {
        match fs.handle(self.fd) {
            Some(handle) => Some(handle.path.clone()),
            None => None,
        }
    }

    /// The length of the file, as long as it is open.
    pub fn length(&self, fs: &Fs) -> (r: Option<u64>)
        requires
            fs.wf(),
        ensures
            match r {
                Some(n) => fs@.handles.contains_key(self.fd) && n == self.content(fs@).len(),
                None => !fs@.handles.contains_key(self.fd),
            },
    {
        match fs.handle(self.fd) {
            Some(handle) => Some(fs.file_len(handle.ino)),
            None => None,
        }
    }

    /// The bytes of the open file.
    pub open spec fn content(self, fs: FsView) -> Seq<u8> {
        fs.live.files[fs.handles[self.fd].ino].content
    }

    /// Closes the file.
    pub fn close(self, fs: &mut Fs)
        requires
            old(fs).wf(),
        ensures
            final(fs).wf(),
            final(fs)@ == (FsView { handles: old(fs)@.handles.remove(self.fd), ..old(fs)@ }),
    {
        fs.close_handle(self.fd);
    }

    /// Reads from `offset` on into the buffer at `addr`. Returns the number of bytes that
    /// were read and, where chance has decided to corrupt one of them, what was corrupted.
    pub fn read_at(
        &self,
        fs: &Fs,
        buf: &mut [u8],
        addr: usize,
        offset: u64,
        chance: Chance,
        rng: &mut SmallRng,
    ) -> (r: Result<(usize, Option<FsCorruption>), Error>)
        requires
            fs.wf(),
        ensures
            reads_at(fs@, *self, addr, offset, chance, old(buf)@, final(buf)@, r),
    {
        if !self.readable {
            return Err(Error::new(ErrorKind::PermissionDenied, Cause::NotReadable));
        }
        if self.direct_io && !is_aligned(fs.direct_io_alignment(), addr, buf.len(), offset) {
            return Err(Error::new(ErrorKind::InvalidInput, Cause::Misaligned));
        }
        if chance.io_error {
            return Err(Error::other(Cause::Io));
        }
        match fs.handle(self.fd) {
            Some(handle) => {
                let ino: u64 = handle.ino;
                let n: usize = fs.read_file(ino, buf, offset);
                if n > 0 && chance.corrupt {
                    let at: usize = random_up_to(rng, n - 1);
                    let byte: u8 = random_u8(rng);
                    let len: u64 = fs.file_len(ino);
                    proof {
                        assert(offset + n <= len);
                    }
                    let ghost clean = buf@;
                    corrupt_byte(buf, at, byte);
                    let place: u64 = offset + at as u64;
                    proof {
                        assert(clean == model::read_bytes(
                            self.content(fs@),
                            offset,
                            old(buf)@.len(),
                        ) + old(buf)@.skip(n as int));
                        lemma_is_corrupted(clean, place - offset, byte);
                    }
                    let what = FsCorruption { path: handle.path.clone(), offset: place, len: 1 };
                    return Ok((n, Some(what)));
                }
                Ok((n, None))
            },
            None => Err(Error::not_found(Cause::HandleNotFound)),
        }
    }

    /// Writes the buffer at `addr` from `offset` on. By chance the write becomes durable at
    /// once. Returns the number of bytes, which is that of the buffer.
    pub fn write_at(
        &self,
        fs: &mut Fs,
        now: Duration,
        buf: &[u8],
        addr: usize,
        offset: u64,
        chance: Chance,
    ) -> (r: Result<usize, Error>)
        requires
            old(fs).wf(),
            offset + buf@.len() <= isize::MAX,
        ensures
            final(fs).wf(),
            (final(fs)@, r) == written(old(fs)@, *self, now, buf@, addr, offset, chance),
    {
        if !self.writable {
            return Err(Error::new(ErrorKind::PermissionDenied, Cause::NotWritable));
        }
        if self.direct_io && !is_aligned(fs.direct_io_alignment(), addr, buf.len(), offset) {
            return Err(Error::new(ErrorKind::InvalidInput, Cause::Misaligned));
        }
        if chance.io_error {
            return Err(Error::other(Cause::Io));
        }
        match fs.handle(self.fd) {
            Some(handle) => {
                let ino: u64 = handle.ino;
                let current_len: u64 = fs.file_len(ino);
                let write_end: u64 = offset + buf.len() as u64;
                if write_end > current_len {
                    if let Err(cause) = fs.check_space(write_end - current_len) {
                        return Err(Error::other(cause));
                    }
                }
                fs.write_file(ino, offset, buf, now);
                if chance.sync {
                    fs.flush_file_data(ino);
                }
                Ok(buf.len())
            },
            None => Err(Error::not_found(Cause::HandleNotFound)),
        }
    }

    /// Reads from the cursor on and moves it behind what was read.
    pub fn read(
        &mut self,
        fs: &Fs,
        buf: &mut [u8],
        addr: usize,
        chance: Chance,
        rng: &mut SmallRng,
    ) -> (r: Result<(usize, Option<FsCorruption>), Error>)
        requires
            fs.wf(),
            old(self).wf(),
        ensures
            final(self).wf(),
            reads_at(
                fs@,
                *old(self),
                addr,
                old(self).cursor,
                chance,
                old(buf)@,
                final(buf)@,
                r,
            ),
            *final(self) == (match r {
                Ok((n, _)) => File { cursor: (old(self).cursor + n) as u64, ..*old(self) },
                Err(_) => *old(self),
            }),
    {
        match self.read_at(fs, buf, addr, self.cursor, chance, rng) {
            Ok((n, what)) => {
                if n > 0 {
                    if let Some(len) = self.length(fs) {
                        proof {
                            assert(self.cursor + n <= len);
                            assert(len <= isize::MAX) by {
                                assert(fs@.live.files.contains_key(fs@.handles[self.fd].ino));
                            }
                        }
                    }
                    self.cursor = self.cursor + n as u64;
                }
                Ok((n, what))
            },
            Err(e) => Err(e),
        }
    }

    /// Where a write through the cursor starts: at the end of an open file in append mode.
    pub open spec fn write_offset(self, fs: FsView) -> u64 {
        if self.append_mode && fs.handles.contains_key(self.fd) {
            self.content(fs).len() as u64
        } else {
            self.cursor
        }
    }

    /// Writes from the cursor on, or to the end in append mode, and moves the cursor behind
    /// what was written.
    pub fn write(
        &mut self,
        fs: &mut Fs,
        now: Duration,
        buf: &[u8],
        addr: usize,
        chance: Chance,
    ) -> (r: Result<usize, Error>)
        requires
            old(fs).wf(),
            old(self).wf(),
            old(self).write_offset(old(fs)@) + buf@.len() <= isize::MAX,
        ensures
            final(fs).wf(),
            (final(fs)@, r) == written(
                old(fs)@,
                *old(self),
                now,
                buf@,
                addr,
                old(self).write_offset(old(fs)@),
                chance,
            ),
            *final(self) == (if r is Ok {
                File {
                    cursor: (old(self).write_offset(old(fs)@) + buf@.len()) as u64,
                    ..*old(self)
                }
            } else {
                *old(self)
            }),
    {
        let offset: u64 = if self.append_mode {
            match self.length(fs) {
                Some(len) => len,
                None => self.cursor,
            }
        } else {
            self.cursor
        };
        match self.write_at(fs, now, buf, addr, offset, chance) {
            Ok(n) => {
                self.cursor = offset + n as u64;
                Ok(n)
            },
            Err(e) => Err(e),
        }
    }

    /// The place that a seek leads to, counted from the start of the file.
    pub open spec fn seek_target(self, fs: FsView, pos: SeekFrom) -> int {
        match pos {
            SeekFrom::Start(offset) => offset as int,
            SeekFrom::End(offset) => self.content(fs).len() + offset,
            SeekFrom::Current(offset) => self.cursor + offset,
        }
    }

    /// Moves the cursor. A place beyond the largest that a signed number can count is not
    /// distinguished from one before the start.
    pub fn seek(&mut self, fs: &Fs, pos: SeekFrom) -> (r: Result<u64, Error>)
        requires
            fs.wf(),
            old(self).wf(),
            pos !is Start ==> old(self).seek_target(fs@, pos) <= i64::MAX,
        ensures
            final(self).wf(),
            pos is End && !fs@.handles.contains_key(old(self).fd) ==> r == Err::<u64, Error>(
                Error { kind: ErrorKind::NotFound, cause: Cause::SeekFileNotFound },
            ),
            pos !is End || fs@.handles.contains_key(old(self).fd) ==> {
                let target = old(self).seek_target(fs@, pos);
                r == (if 0 <= target <= i64::MAX {
                    Ok::<u64, Error>(target as u64)
                } else {
                    Err(Error { kind: ErrorKind::InvalidInput, cause: Cause::NegativeSeek })
                })
            },
            *final(self) == (match r {
                Ok(place) => File { cursor: place, ..*old(self) },
                Err(_) => *old(self),
            }),
    {
        let target: i128 = match pos {
            SeekFrom::Start(offset) => offset as i128,
            SeekFrom::End(offset) => match self.length(fs) {
                Some(len) => len as i128 + offset as i128,
                None => {
                    return Err(Error::not_found(Cause::SeekFileNotFound));
                },
            },
            SeekFrom::Current(offset) => self.cursor as i128 + offset as i128,
        };
        if target < 0 || target > 0x7fff_ffff_ffff_ffff {
            return Err(Error::new(ErrorKind::InvalidInput, Cause::NegativeSeek));
        }
        self.cursor = target as u64;
        Ok(self.cursor)
    }

    /// Reads from `offset` on until the buffer is full. Fails where the file ends before.
    pub fn read_exact_at(
        &self,
        fs: &Fs,
        buf: &mut [u8],
        addr: usize,
        offset: u64,
        chance: Chance,
        rng: &mut SmallRng,
    ) -> (r: Result<(), Error>)
        requires
            fs.wf(),
        ensures
            final(buf)@.len() == old(buf)@.len(),
            r == match read_error(fs@, *self, addr, old(buf)@.len(), offset, chance.io_error) {
                Some(e) => Err::<(), Error>(e),
                None => if model::read_len(self.content(fs@), offset, old(buf)@.len())
                    == old(buf)@.len() {
                    Ok(())
                } else {
                    Err(Error { kind: ErrorKind::UnexpectedEof, cause: Cause::EndOfFile })
                },
            },
            r is Ok && !chance.corrupt ==> final(buf)@ == model::read_bytes(
                self.content(fs@),
                offset,
                old(buf)@.len(),
            ),
    {
        match self.read_at(fs, buf, addr, offset, chance, rng) {
            Ok((n, _)) => {
                if n == buf.len() {
                    proof {
                        assert(old(buf)@.skip(n as int) =~= Seq::empty());
                        assert(chance.corrupt || final(buf)@ =~= model::read_bytes(
                            self.content(fs@),
                            offset,
                            old(buf)@.len(),
                        ));
                    }
                    Ok(())
                } else {
                    Err(Error::new(ErrorKind::UnexpectedEof, Cause::EndOfFile))
                }
            },
            Err(e) => Err(e),
        }
    }
}

/// What a write of `data` from a buffer at `addr` to `offset` of the file leads to.
pub open spec fn written(
    fs: FsView,
    file: File,
    now: Duration,
    data: Seq<u8>,
    addr: usize,
    offset: u64,
    chance: Chance,
) -> (FsView, Result<usize, Error>) {
    match write_error(fs, file, addr, data.len(), offset, chance.io_error) {
        Some(e) => (fs, Err(e)),
        None => {
            let ino = fs.handles[file.fd].ino;
            if has_room(fs, ino, offset, data.len()) {
                (after_write(fs, ino, offset, data, now, chance.sync), Ok(data.len() as usize))
            } else {
                (fs, Err(Error { kind: ErrorKind::Other, cause: Cause::NoSpace }))
            }
        },
    }
}

/// What syncing the file with the descriptor leads to.
pub open spec fn synced(fs: FsView, fd: u64) -> (FsView, Result<(), Error>) {
    if !fs.handles.contains_key(fd) {
        (fs, Err(Error { kind: ErrorKind::NotFound, cause: Cause::HandleNotFound }))
    } else {
        (model::file_synced(fs, fs.handles[fd].ino), Ok(()))
    }
}

/// The filesystem after a descriptor has been handed out for the open file.
pub open spec fn handed_out(fs: FsView, handle: HandleView) -> FsView {
    FsView {
        next_fd: (fs.next_fd + 1) as u64,
        handles: fs.handles.insert(fs.next_fd, handle),
        ..fs
    }
}

/// Options for opening files.
#[derive(Clone, Copy, Debug, PartialEq, Eq, Structural)]
pub struct OpenOptions {
    /// Whether to open for reading.
    pub read: bool,
    /// Whether to open for writing.
    pub write: bool,
    /// Whether writes go to the end.
    pub append: bool,
    /// Whether to cut the file to nothing.
    pub truncate: bool,
    /// Whether to create the file if it does not exist.
    pub create: bool,
    /// Whether to create the file, and fail if it exists.
    pub create_new: bool,
    /// The permission bits of a file that is created.
    pub mode: u32,
    /// Flags for the operating system.
    pub custom_flags: i32,
    /// Whether reads and writes bypass the page cache.
    pub direct_io: bool,
}

/// No options.
pub open spec fn no_options() -> OpenOptions {
    OpenOptions {
        read: false,
        write: false,
        append: false,
        truncate: false,
        create: false,
        create_new: false,
        mode: FILE_MODE,
        custom_flags: 0,
        direct_io: false,
    }
}

/// The options of a file that is opened for reading.
pub open spec fn read_options() -> OpenOptions {
    OpenOptions { read: true, ..no_options() }
}

/// The options of a file that is created or cut to nothing for writing.
pub open spec fn create_options() -> OpenOptions {
    OpenOptions { write: true, create: true, truncate: true, ..no_options() }
}

/// What stands between the options and opening the file at `path`, where no symbolic link
/// stands.
pub open spec fn open_error(fs: FsView, options: OpenOptions, path: PathView) -> Option<Error> {
    let present = model::file_exists(fs.live, path);
    if options.create_new && present {
        Some(Error { kind: ErrorKind::AlreadyExists, cause: Cause::FileExists })
    } else if !present && !options.create && !options.create_new {
        Some(Error { kind: ErrorKind::NotFound, cause: Cause::FileNotFound })
    } else if !present && !model::parent_exists(fs.live, path) {
        Some(Error { kind: ErrorKind::NotFound, cause: Cause::ParentNotFound })
    } else if model::dir_exists(fs.live, path) {
        Some(Error { kind: ErrorKind::Other, cause: Cause::IsDirectory })
    } else {
        None
    }
}

/// The number of the file at `path` once it has been opened.
pub open spec fn opened_number(fs: FsView, path: PathView) -> u64 {
    if model::file_exists(fs.live, path) {
        model::number_at(fs.live, path)
    } else {
        fs.next_ino
    }
}

/// The filesystem after the file at `path` has been opened.
pub open spec fn after_open(
    fs: FsView,
    options: OpenOptions,
    path: PathView,
    now: Duration,
) -> FsView {
    let ino = opened_number(fs, path);
    let created = if model::file_exists(fs.live, path) {
        fs
    } else {
        model::pushed(fs, OpView::CreateFile { path, ino, time: now, mode: options.mode })
    };
    let truncated = if options.truncate && options.write {
        model::pushed(model::uncached(created, path), OpView::SetLen { ino, len: 0, time: now })
    } else {
        created
    };
    handed_out(truncated, HandleView { ino, path })
}

/// The file that opening gives.
pub open spec fn opened_file(fs: FsView, options: OpenOptions) -> File {
    File {
        fd: fs.next_fd,
        readable: options.read,
        writable: options.write || options.append,
        append_mode: options.append,
        direct_io: options.direct_io || options.custom_flags & O_DIRECT != 0,
        cursor: 0,
    }
}

/// What opening the file at the path with the text `raw` leads to. Symbolic links are
/// followed.
pub open spec fn opened(fs: FsView, options: OpenOptions, now: Duration, raw: Seq<u8>) -> (
    FsView,
    Result<File, Error>,
) {
    match model::followed(fs.live, path::parse(raw)) {
        None => (fs, Err(Error { kind: ErrorKind::NotFound, cause: Cause::NoSuchEntry })),
        Some(path) => match open_error(fs, options, path) {
            Some(e) => (fs, Err(e)),
            None => (after_open(fs, options, path, now), Ok(opened_file(fs, options))),
        },
    }
}

/// Without flags, nothing asks for input and output that bypass the page cache.
pub proof fn lemma_no_flags()
    ensures
        0i32 & O_DIRECT == 0,
{
    assert(0i32 & 0x4000i32 == 0) by (bit_vector);
}

impl Default for OpenOptions {
    fn default() -> (r: OpenOptions)
        ensures
            r == no_options(),
    {
        OpenOptions {
            read: false,
            write: false,
            append: false,
            truncate: false,
            create: false,
            create_new: false,
            mode: FILE_MODE,
            custom_flags: 0,
            direct_io: false,
        }
    }
}

impl OpenOptions {
    /// No options.
    pub fn new() -> (r: OpenOptions)
        ensures
            r == no_options(),
    {
        OpenOptions::default()
    }

    /// Sets whether to open for reading.
    pub fn read(&mut self, read: bool) -> (r: &mut Self)
        ensures
            *r == (OpenOptions { read, ..*old(self) }),
            *final(self) == *final(r),
    {
        self.read = read;
        self
    }

    /// Sets whether to open for writing.
    pub fn write(&mut self, write: bool) -> (r: &mut Self)
        ensures
            *r == (OpenOptions { write, ..*old(self) }),
            *final(self) == *final(r),
    {
        self.write = write;
        self
    }

    /// Sets whether writes go to the end.
    pub fn append(&mut self, append: bool) -> (r: &mut Self)
        ensures
            *r == (OpenOptions { append, ..*old(self) }),
            *final(self) == *final(r),
    {
        self.append = append;
        self
    }

    /// Sets whether to cut the file to nothing.
    pub fn truncate(&mut self, truncate: bool) -> (r: &mut Self)
        ensures
            *r == (OpenOptions { truncate, ..*old(self) }),
            *final(self) == *final(r),
    {
        self.truncate = truncate;
        self
    }

    /// Sets whether to create the file if it does not exist.
    pub fn create(&mut self, create: bool) -> (r: &mut Self)
        ensures
            *r == (OpenOptions { create, ..*old(self) }),
            *final(self) == *final(r),
    {
        self.create = create;
        self
    }

    /// Sets whether to create the file, and fail if it exists.
    pub fn create_new(&mut self, create_new: bool) -> (r: &mut Self)
        ensures
            *r == (OpenOptions { create_new, ..*old(self) }),
            *final(self) == *final(r),
    {
        self.create_new = create_new;
        self
    }

    /// Sets whether reads and writes bypass the page cache. That changes how long they take
    /// and not what is durable.
    pub fn direct_io(&mut self, direct_io: bool) -> (r: &mut Self)
        ensures
            *r == (OpenOptions { direct_io, ..*old(self) }),
            *final(self) == *final(r),
    {
        self.direct_io = direct_io;
        self
    }

    /// Sets the permission bits of a file that is created.
    pub fn mode(&mut self, mode: u32) -> (r: &mut Self)
        ensures
            *r == (OpenOptions { mode, ..*old(self) }),
            *final(self) == *final(r),
    {
        self.mode = mode;
        self
    }

    /// Sets flags for the operating system. Of them only [`O_DIRECT`] has an effect.
    pub fn custom_flags(&mut self, custom_flags: i32) -> (r: &mut Self)
        ensures
            *r == (OpenOptions { custom_flags, ..*old(self) }),
            *final(self) == *final(r),
    {
        self.custom_flags = custom_flags;
        self
    }

    /// Opens the file at the path. Symbolic links are followed.
    pub fn open(&self, fs: &mut Fs, now: Duration, path: &[u8]) -> (r: Result<File, Error>)
        requires
            old(fs).wf(),
            model::has_numbers(old(fs)@),
        ensures
            final(fs).wf(),
            (final(fs)@, r) == opened(old(fs)@, *self, now, path@),
    {
        let resolved = match std_fs::follow(fs, PathBuf::new(path)) {
            Some(resolved) => resolved,
            None => {
                return Err(Error::not_found(Cause::NoSuchEntry));
            },
        };
        let ino: u64 = match fs.file_number(&resolved) {
            Some(ino) => {
                if self.create_new {
                    return Err(Error::new(ErrorKind::AlreadyExists, Cause::FileExists));
                }
                ino
            },
            None => {
                if !self.create && !self.create_new {
                    return Err(Error::not_found(Cause::FileNotFound));
                }
                if !fs.parent_exists(&resolved) {
                    return Err(Error::not_found(Cause::ParentNotFound));
                }
                if fs.dir_exists(&resolved) {
                    return Err(Error::other(Cause::IsDirectory));
                }
                fs.create_file_with_mode(&resolved, now, self.mode)
            },
        };
        if self.truncate && self.write {
            fs.set_file_len(ino, &resolved, 0, now);
        }
        let fd: u64 = fs.open_handle(ino, resolved);
        Ok(
            File {
                fd,
                readable: self.read,
                writable: self.write || self.append,
                append_mode: self.append,
                direct_io: self.direct_io || (self.custom_flags & O_DIRECT) != 0,
                cursor: 0,
            },
        )
    }
}

/// The filesystem after the file with the descriptor has been closed.
pub open spec fn closed(fs: FsView, fd: u64) -> FsView {
    FsView { handles: fs.handles.remove(fd), ..fs }
}

/// Whether opening the file at the path with the text `raw`, reading all of it and closing
/// it can give `r`, when chance has decided what happens. Only a byte that is corrupted by
/// chance leaves a choice.
pub open spec fn reads(fs: FsView, raw: Seq<u8>, chance: Chance, r: Result<Seq<u8>, Error>) -> bool {
    match opened(fs, read_options(), Duration { nanos: 0 }, raw).1 {
        Err(e) => r == Err::<Seq<u8>, Error>(e),
        Ok(_) => {
            let path = model::followed(fs.live, path::parse(raw)).unwrap();
            let content = model::file_content(fs.live, path);
            if content.len() == 0 {
                r == Ok::<Seq<u8>, Error>(content)
            } else if chance.io_error {
                r == Err::<Seq<u8>, Error>(Error { kind: ErrorKind::Other, cause: Cause::Io })
            } else if !chance.corrupt {
                r == Ok::<Seq<u8>, Error>(content)
            } else {
                r is Ok && corrupted_somewhere(content, r->Ok_0)
            }
        },
    }
}

/// The filesystem after a file has been opened for reading, if it could be, and closed.
pub open spec fn after_read(fs: FsView, raw: Seq<u8>) -> FsView {
    if opened(fs, read_options(), Duration { nanos: 0 }, raw).1 is Ok {
        FsView { next_fd: (fs.next_fd + 1) as u64, ..fs }
    } else {
        fs
    }
}

/// A result with the view of what it holds.
pub open spec fn result_view(r: Result<Vec<u8>, Error>) -> Result<Seq<u8>, Error> {
    match r {
        Ok(bytes) => Ok(bytes@),
        Err(e) => Err(e),
    }
}

/// Reads all of a file.
pub fn read(fs: &mut Fs, path: &[u8], chance: Chance, rng: &mut SmallRng) -> (r: Result<
    Vec<u8>,
    Error,
>)
    requires
        old(fs).wf(),
        model::has_numbers(old(fs)@),
    ensures
        final(fs).wf(),
        reads(old(fs)@, path@, chance, result_view(r)),
        final(fs)@ == after_read(old(fs)@, path@),
{
    let ghost before = fs@;
    match File::open(fs, Duration::zero(), path) {
        Ok(file) => {
            let ghost kept = model::followed(before.live, path::parse(path@)).unwrap();
            let ghost content = model::file_content(before.live, kept);
            proof {
                lemma_no_flags();
                lemma_file_fits(before, kept);
                assert(file.content(fs@) == content);
                assert(fs@.handles.remove(file.fd) =~= before.handles);
            }
            let len: usize = match file.metadata(fs) {
                Ok(meta) => meta.len as usize,
                Err(e) => {
                    file.close(fs);
                    return Err(e);
                },
            };
            let mut buf: Vec<u8> = vec![0u8; len];
            if len > 0 {
                let ghost zeros = buf@;
                match file.read_at(fs, buf.as_mut_slice(), 0, 0, chance, rng) {
                    Ok((n, what)) => {
                        proof {
                            let bytes = model::read_bytes(content, 0, len as nat);
                            assert(n == len);
                            assert(bytes =~= content);
                            assert(bytes + zeros.skip(n as int) =~= content);
                            if what is Some {
                                let at = what->0.offset as int;
                                assert(0 <= at < content.len());
                                assert(is_corrupted(content, buf@, at));
                                assert(corrupted_somewhere(content, buf@));
                            } else {
                                assert(buf@ == content);
                            }
                        }
                    },
                    Err(e) => {
                        file.close(fs);
                        return Err(e);
                    },
                }
            } else {
                proof {
                    assert(buf@ =~= content);
                }
            }
            file.close(fs);
            Ok(buf)
        },
        Err(e) => Err(e),
    }
}

/// Reads all of a file as text.
pub fn read_to_string(fs: &mut Fs, path: &[u8], chance: Chance, rng: &mut SmallRng) -> (r: Result<
    String,
    Error,
>)
    requires
        old(fs).wf(),
        model::has_numbers(old(fs)@),
    ensures
        final(fs).wf(),
        exists|bytes: Result<Seq<u8>, Error>| #[trigger]
            reads(old(fs)@, path@, chance, bytes) && is_text_of(r, bytes),
        final(fs)@ == after_read(old(fs)@, path@),
{
    match read(fs, path, chance, rng) {
        Ok(bytes) => {
            let ghost view: Result<Seq<u8>, Error> = Ok(bytes@);
            assert(reads(old(fs)@, path@, chance, view));
            match pattern::string_from_utf8(bytes) {
                Some(text) => Ok(text),
                None => Err(Error::new(ErrorKind::InvalidData, Cause::NotUtf8)),
            }
        },
        Err(e) => {
            let ghost view: Result<Seq<u8>, Error> = Err(e);
            assert(reads(old(fs)@, path@, chance, view));
            Err(e)
        },
    }
}

/// Whether `r` is the text that the bytes encode, or the error that kept them from being
/// read or decoded.
pub open spec fn is_text_of(r: Result<String, Error>, bytes: Result<Seq<u8>, Error>) -> bool {
    match bytes {
        Err(e) => r == Err::<String, Error>(e),
        Ok(b) => if vstd::utf8::valid_utf8(b) {
            r is Ok && r->Ok_0@ == vstd::utf8::decode_utf8(b)
        } else {
            r == Err::<String, Error>(
                Error { kind: ErrorKind::InvalidData, cause: Cause::NotUtf8 },
            )
        },
    }
}

/// What replacing the file at the path with the text `raw` by one with the given bytes
/// leads to.
pub open spec fn replaced(
    fs: FsView,
    now: Duration,
    raw: Seq<u8>,
    contents: Seq<u8>,
    chance: Chance,
) -> (FsView, Result<(), Error>) {
    match opened(fs, create_options(), now, raw) {
        (_, Err(e)) => (fs, Err(e)),
        (open, Ok(file)) => if contents.len() == 0 {
            (closed(open, file.fd), Ok(()))
        } else {
            let (after, r) = written(open, file, now, contents, 0, 0, chance);
            (
                closed(after, file.fd),
                match r {
                    Ok(_) => Ok(()),
                    Err(e) => Err(e),
                },
            )
        },
    }
}

/// Writes the bytes as all of a file. The file is created if it does not exist.
pub fn write(fs: &mut Fs, now: Duration, path: &[u8], contents: &[u8], chance: Chance) -> (r:
    Result<(), Error>)
    requires
        old(fs).wf(),
        model::has_numbers(old(fs)@),
        contents@.len() <= isize::MAX,
    ensures
        final(fs).wf(),
        (final(fs)@, r) == replaced(old(fs)@, now, path@, contents@, chance),
{
    let ghost before = fs@;
    match File::create(fs, now, path) {
        Ok(file) => {
            if contents.len() > 0 {
                if let Err(e) = file.write_at(fs, now, contents, 0, 0, chance) {
                    file.close(fs);
                    return Err(e);
                }
            }
            file.close(fs);
            Ok(())
        },
        Err(e) => Err(e),
    }
}

/// Copies the bytes of one file to another, and returns their number. The metadata is not
/// copied.
pub fn copy(
    fs: &mut Fs,
    now: Duration,
    from: &[u8],
    to: &[u8],
    on_read: Chance,
    on_write: Chance,
    rng: &mut SmallRng,
) -> (r: Result<u64, Error>)
    requires
        old(fs).wf(),
        old(fs)@.next_fd + 2 <= u64::MAX,
        old(fs)@.next_ino < u64::MAX,
    ensures
        final(fs).wf(),
        exists|bytes: Result<Seq<u8>, Error>| #[trigger]
            reads(old(fs)@, from@, on_read, bytes) && copies(
                after_read(old(fs)@, from@),
                final(fs)@,
                now,
                to@,
                bytes,
                on_write,
                r,
            ),
{
    let ghost before = fs@;
    match read(fs, from, on_read, rng) {
        Ok(contents) => {
            let ghost view: Result<Seq<u8>, Error> = Ok(contents@);
            assert(reads(before, from@, on_read, view));
            proof {
                lemma_reads_fit(before, from@, on_read, view);
            }
            let len: u64 = contents.len() as u64;
            match write(fs, now, to, contents.as_slice(), on_write) {
                Ok(_) => Ok(len),
                Err(e) => Err(e),
            }
        },
        Err(e) => {
            let ghost view: Result<Seq<u8>, Error> = Err(e);
            assert(reads(before, from@, on_read, view));
            Err(e)
        },
    }
}

/// Whether writing what was read to the path with the text `to` leads from `before` to
/// `after` and gives `r`.
pub open spec fn copies(
    before: FsView,
    after: FsView,
    now: Duration,
    to: Seq<u8>,
    bytes: Result<Seq<u8>, Error>,
    chance: Chance,
    r: Result<u64, Error>,
) -> bool {
    match bytes {
        Err(e) => after == before && r == Err::<u64, Error>(e),
        Ok(contents) => {
            let (fs, written) = replaced(before, now, to, contents, chance);
            after == fs && r == (match written {
                Ok(_) => Ok::<u64, Error>(contents.len() as u64),
                Err(e) => Err(e),
            })
        },
    }
}

/// A file fits in memory.
proof fn lemma_file_fits(fs: FsView, path: PathView)
    requires
        model::fs_wf(fs),
        model::file_exists(fs.live, path),
    ensures
        model::number_at(fs.live, path) < fs.next_ino,
        model::file_content(fs.live, path).len() <= isize::MAX,
{
    assert(fs.live.nodes.contains_key(path));
    assert(fs.live.files.contains_key(model::number_at(fs.live, path)));
}

/// What is read fits in memory.
proof fn lemma_reads_fit(fs: FsView, raw: Seq<u8>, chance: Chance, bytes: Result<Seq<u8>, Error>)
    requires
        model::fs_wf(fs),
        reads(fs, raw, chance, bytes),
        bytes is Ok,
    ensures
        bytes->Ok_0.len() <= isize::MAX,
{
    let path = model::followed(fs.live, path::parse(raw)).unwrap();
    lemma_file_fits(fs, path);
    let content = model::file_content(fs.live, path);
    if content.len() > 0 && chance.corrupt && !chance.io_error {
        let at = choose|at: int|
            0 <= at && at < content.len() && #[trigger] is_corrupted(content, bytes->Ok_0, at);
        let byte = choose|byte: u8| bytes->Ok_0 == #[trigger] corrupted(content, at, byte);
        assert(bytes->Ok_0.len() == content.len());
    }
}

} // verus!
