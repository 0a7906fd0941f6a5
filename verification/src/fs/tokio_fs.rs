//! Files whose operations take time.
//!
//! Each operation returns what it comes to and how long it takes. The caller sleeps so long.
use crate::error::Error;
use crate::fs::file;
use crate::fs::file::FsCorruption;
use crate::fs::model;
use crate::fs::model::FsView;
use crate::fs::state::Fs;
use crate::fs::std_fs::Chance;
use crate::time::Duration;
use rand::rngs::SmallRng;
use vstd::prelude::*;

verus! {

/// An open file.
#[derive(Debug)]
pub struct File {
    /// The file, whose operations take no time.
    pub inner: file::File,
}

/// The file with buffered input and output: reads and writes through it need not be aligned.
pub open spec fn buffered(f: file::File) -> file::File {
    file::File { direct_io: false, ..f }
}

/// What chance decides about how long an operation takes.
#[derive(Clone, Copy, Debug, PartialEq, Eq, Structural)]
pub struct Pace {
    /// Whether the page that is read is evicted first.
    pub evict: bool,
    /// How much longer than the shortest time the operation takes.
    pub scaled: Duration,
}

/// Whether the times add up.
pub open spec fn fits(fs: FsView, pace: Pace) -> bool {
    fs.config.io_latency matches Some(l) ==> l.min_latency.nanos + pace.scaled.nanos <= u128::MAX
}

/// The filesystem after a read at the offset, and how long it takes.
pub open spec fn after_read(
    fs: FsView,
    f: file::File,
    offset: u64,
    pace: Pace,
) -> (FsView, Duration) {
    if fs.handles.contains_key(f.fd) {
        let path = fs.handles[f.fd].path;
        (
            if f.direct_io {
                fs
            } else {
                model::cached(model::looked_up(fs, path, offset, pace.evict), path, offset)
            },
            model::latency(
                fs.config,
                model::read_hits(fs, path, offset, f.direct_io, pace.evict),
                pace.scaled,
            ),
        )
    } else {
        (fs, model::latency(fs.config, false, pace.scaled))
    }
}

/// The filesystem after a write to the file at the path is in the cache.
pub open spec fn after_write(fs: FsView, f: file::File, offset: u64) -> FsView {
    if fs.handles.contains_key(f.fd) && !f.direct_io {
        model::cached(fs, fs.handles[f.fd].path, offset)
    } else {
        fs
    }
}

impl File {
    /// A file whose operations take time.
    pub fn from_std(std: file::File) -> (r: File)
        ensures
            r.inner == std,
    {
        File { inner: std }
    }

    /// The file, whose operations take no time.
    pub fn into_std(self) -> (r: file::File)
        ensures
            r == self.inner,
    {
        self.inner
    }

    fn as_buffered(&self) -> (r: file::File)
        ensures
            r == buffered(self.inner),
    {
        file::File {
            fd: self.inner.fd,
            readable: self.inner.readable,
            writable: self.inner.writable,
            append_mode: self.inner.append_mode,
            direct_io: false,
            cursor: self.inner.cursor,
        }
    }

    /// Reads from the offset on. A page that is in the cache is read at once, unless the file
    /// bypasses the cache.
    pub fn read_at(
        &self,
        fs: &mut Fs,
        buf: &mut [u8],
        offset: u64,
        chance: Chance,
        pace: Pace,
        rng: &mut SmallRng,
    ) -> (r: (Result<(usize, Option<FsCorruption>), Error>, Duration))
        requires
            old(fs).wf(),
            fits(old(fs)@, pace),
        ensures
            final(fs).wf(),
            file::reads_at(
                old(fs)@,
                buffered(self.inner),
                0,
                offset,
                chance,
                old(buf)@,
                final(buf)@,
                r.0,
            ),
            (final(fs)@, r.1) == after_read(old(fs)@, self.inner, offset, pace),
    {
        let result = self.as_buffered().read_at(fs, buf, 0, offset, chance, rng);
        let latency = match self.inner.path(fs) {
            Some(path) => fs.apply_read_latency(
                &path,
                offset,
                self.inner.is_direct_io(),
                pace.evict,
                pace.scaled,
            ),
            None => fs.apply_io_latency(pace.scaled),
        };
        (result, latency)
    }

    /// Writes from the offset on. The page is in the cache afterwards, unless the file bypasses
    /// it.
    pub fn write_at(
        &self,
        fs: &mut Fs,
        now: Duration,
        buf: &[u8],
        offset: u64,
        chance: Chance,
        pace: Pace,
    ) -> (r: (Result<usize, Error>, Duration))
        requires
            old(fs).wf(),
            offset + buf@.len() <= isize::MAX,
            fits(old(fs)@, pace),
        ensures
            final(fs).wf(),
            ({
                let w = file::written(
                    old(fs)@,
                    buffered(self.inner),
                    now,
                    buf@,
                    0,
                    offset,
                    chance,
                );
                &&& r.0 == w.1
                &&& r.1 == model::latency(old(fs)@.config, false, pace.scaled)
                &&& final(fs)@ == after_write(w.0, self.inner, offset)
            }),
    {
        let result = self.as_buffered().write_at(fs, now, buf, 0, offset, chance);
        let latency = match self.inner.path(fs) {
            Some(path) => fs.apply_write_latency(
                &path,
                offset,
                self.inner.is_direct_io(),
                pace.scaled,
            ),
            None => fs.apply_io_latency(pace.scaled),
        };
        (result, latency)
    }

    /// Makes the data of the file durable.
    pub fn sync_all(&self, fs: &mut Fs, pace: Pace) -> (r: (Result<(), Error>, Duration))
        requires
            old(fs).wf(),
            fits(old(fs)@, pace),
        ensures
            final(fs).wf(),
            (final(fs)@, r.0) == file::synced(old(fs)@, self.inner.fd),
            r.1 == model::latency(old(fs)@.config, false, pace.scaled),
    {
        let result = self.inner.sync_all(fs);
        let latency = fs.apply_io_latency(pace.scaled);
        (result, latency)
    }
}

} // verus!
