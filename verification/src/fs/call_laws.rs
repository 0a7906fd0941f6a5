//! Laws of calls: what a call of an operation on files and directories gives and leaves behind.
use crate::error::{Cause, Error, ErrorKind};
use crate::fs::entry_laws;
use crate::fs::file::{File, FsCorruption, SeekFrom};
use crate::fs::model;
use crate::fs::model::{FsView, NodeView, OpView};
use crate::fs::open_laws;
use crate::fs::state::Fs;
use crate::fs::std_fs;
use crate::fs::std_fs::{Chance, ReadDir};
use crate::fs::tokio_fs;
use crate::fs::tokio_fs::Pace;
use crate::fs::tree;
use crate::fs::write_laws;
use crate::path;
use crate::path::PathView;
use crate::time::Duration;
use rand::rngs::SmallRng;
use vstd::prelude::*;

verus! {

/// Cutting or extending a file succeeds where it is open for writing. It then has the length, the
/// bytes that it had as far as they go, and zeros behind; and is durable at once where chance
/// decides so. Otherwise nothing changes.
pub proof fn law_call_of_set_len(
    f: &File,
    fs: &mut Fs,
    now: Duration,
    size: u64,
    chance: Chance,
    r: Result<(), Error>,
    k: int,
)
    requires
        old(fs).wf(),
        call_ensures(File::set_len, (f, fs, now, size, chance), r),
    ensures
        r is Ok <==> f.writable && old(fs)@.handles.contains_key(f.fd),
        !f.writable ==> r == Err::<(), Error>(
            Error { kind: ErrorKind::PermissionDenied, cause: Cause::NotWritable },
        ),
        f.writable && r is Err ==> r == Err::<(), Error>(
            Error { kind: ErrorKind::NotFound, cause: Cause::HandleNotFound },
        ),
        r is Err ==> final(fs)@ == old(fs)@,
        r is Ok ==> {
            let ino = old(fs)@.handles[f.fd].ino;
            let (x, y) = (old(fs)@.live.files[ino], final(fs)@.live.files[ino]);
            &&& y.content.len() == size
            &&& 0 <= k < size ==> y.content[k] == (if k < x.content.len() {
                x.content[k]
            } else {
                0u8
            })
            &&& y.mtime == now && y.ctime == now && y.mode == x.mode && y.crtime == x.crtime
            &&& final(fs)@.live.nodes == old(fs)@.live.nodes
            &&& final(fs)@.live.files == old(fs)@.live.files.insert(ino, y)
            &&& chance.sync ==> final(fs)@.persisted.files[ino] == y
            &&& !chance.sync ==> final(fs)@.persisted == old(fs)@.persisted && final(fs)@.pending
                == old(fs)@.pending.push(OpView::SetLen { ino, len: size, time: now })
        },
{
    let before = old(fs)@;
    if f.writable && before.handles.contains_key(f.fd) {
        let handle = before.handles[f.fd];
        assert(before.live.files.contains_key(handle.ino));
        assert(before.persisted.files.contains_key(handle.ino));
        entry_laws::law_length_that_is_set(
            model::uncached(before, handle.path),
            handle.ino,
            size,
            now,
        );
    }
}

/// A second handle of an open file has the next descriptor, the same rights and a cursor at the
/// start, and leads to the same file.
pub proof fn law_call_of_try_clone(f: &File, fs: &mut Fs, r: Result<File, Error>)
    requires
        old(fs).wf(),
        model::has_numbers(old(fs)@),
        call_ensures(File::try_clone, (f, fs), r),
    ensures
        r is Ok <==> old(fs)@.handles.contains_key(f.fd),
        r is Err ==> r == Err::<File, Error>(
            Error { kind: ErrorKind::NotFound, cause: Cause::HandleNotFound },
        ) && final(fs)@ == old(fs)@,
        r matches Ok(g) ==> {
            &&& g.fd == old(fs)@.next_fd && g.cursor == 0
            &&& (g.readable, g.writable, g.append_mode, g.direct_io) == (
                f.readable,
                f.writable,
                f.append_mode,
                f.direct_io,
            )
            &&& final(fs)@.handles == old(fs)@.handles.insert(g.fd, old(fs)@.handles[f.fd])
            &&& final(fs)@.next_fd == old(fs)@.next_fd + 1
            &&& final(fs)@.live == old(fs)@.live && final(fs)@.persisted == old(fs)@.persisted
            &&& final(fs)@.pending == old(fs)@.pending
        },
{
}

/// A read through the cursor gives the bytes from there on and moves the cursor behind them. One
/// that fails moves nothing.
pub proof fn law_call_of_read(
    f: &mut File,
    fs: &Fs,
    buf: &mut [u8],
    addr: usize,
    chance: Chance,
    rng: &mut SmallRng,
    r: Result<(usize, Option<FsCorruption>), Error>,
    k: int,
)
    requires
        fs.wf(),
        old(f).wf(),
        call_ensures(File::read, (f, fs, buf, addr, chance, rng), r),
    ensures
        r is Err ==> *final(f) == *old(f) && final(buf)@ == old(buf)@,
        r is Ok ==> {
            let content = fs@.live.files[fs@.handles[old(f).fd].ino].content;
            let start = old(f).cursor;
            let n = r->Ok_0.0;
            &&& n <= old(buf)@.len() && (start < content.len() ==> start + n <= content.len())
            &&& n < old(buf)@.len() ==> n == 0 && start >= content.len() || start + n
                == content.len()
            &&& final(f).cursor == (start + n) as u64
            &&& (final(f).fd, final(f).readable, final(f).writable, final(f).append_mode) == (
                old(f).fd,
                old(f).readable,
                old(f).writable,
                old(f).append_mode,
            )
            &&& r->Ok_0.1 is None && 0 <= k < n ==> final(buf)@[k] == content[start + k]
            &&& n <= k < old(buf)@.len() ==> final(buf)@[k] == old(buf)@[k]
        },
{
    if r is Ok {
        open_laws::law_read_gives_the_bytes(
            fs@,
            *old(f),
            addr,
            old(f).cursor,
            chance,
            old(buf)@,
            final(buf)@,
            r,
        );
        if r->Ok_0.1 is None && 0 <= k < r->Ok_0.0 {
            let content = fs@.live.files[fs@.handles[old(f).fd].ino].content;
            assert(final(buf)@[k] == content[old(f).cursor + k]);
        }
    }
}

/// A write through the cursor puts its bytes there, or at the end in append mode, and moves the
/// cursor behind them. One that fails moves and changes nothing.
pub proof fn law_call_of_write(
    f: &mut File,
    fs: &mut Fs,
    now: Duration,
    buf: &[u8],
    addr: usize,
    chance: Chance,
    r: Result<usize, Error>,
    k: int,
)
    requires
        old(fs).wf(),
        old(f).wf(),
        old(f).write_offset(old(fs)@) + buf@.len() <= isize::MAX,
        call_ensures(File::write, (f, fs, now, buf, addr, chance), r),
    ensures
        r is Err ==> *final(f) == *old(f) && final(fs)@ == old(fs)@,
        r is Ok ==> {
            let ino = old(fs)@.handles[old(f).fd].ino;
            let (x, y) = (
                old(fs)@.live.files[ino].content,
                final(fs)@.live.files[ino].content,
            );
            let start = if old(f).append_mode {
                x.len() as int
            } else {
                old(f).cursor as int
            };
            &&& r->Ok_0 == buf@.len()
            &&& final(f).cursor == start + buf@.len()
            &&& 0 <= k < buf@.len() ==> start + k < y.len() && y[start + k] == buf@[k]
            &&& 0 <= k < x.len() && (k < start || k >= start + buf@.len()) ==> k < y.len() && y[k]
                == x[k]
        },
{
    let before = old(fs)@;
    let start = old(f).write_offset(before);
    if r is Ok {
        let ino = before.handles[old(f).fd].ino;
        assert(before.live.files.contains_key(ino));
        write_laws::law_write_fails_for_a_reason(before, *old(f), now, buf@, addr, start, chance);
        write_laws::law_write_changes_its_bytes(
            before,
            *old(f),
            now,
            buf@,
            addr,
            start,
            chance,
            start + k,
            0,
        );
        write_laws::law_write_changes_its_bytes(
            before,
            *old(f),
            now,
            buf@,
            addr,
            start,
            chance,
            k,
            0,
        );
    } else {
        write_laws::law_write_fails_for_a_reason(before, *old(f), now, buf@, addr, start, chance);
    }
}

/// A write at a place of an open file leaves the cursor, puts its bytes there, and fails for want
/// of space just where the bytes in use and the growth of the file are more than the capacity.
pub proof fn law_call_of_write_at(
    f: &File,
    fs: &mut Fs,
    now: Duration,
    buf: &[u8],
    addr: usize,
    offset: u64,
    chance: Chance,
    r: Result<usize, Error>,
    k: int,
)
    requires
        old(fs).wf(),
        offset + buf@.len() <= isize::MAX,
        call_ensures(File::write_at, (f, fs, now, buf, addr, offset, chance), r),
        old(fs)@.handles.contains_key(f.fd),
        f.writable,
        !f.direct_io,
        !chance.io_error,
    ensures
        ({
            let ino = old(fs)@.handles[f.fd].ino;
            let (x, y) = (
                old(fs)@.live.files[ino].content,
                final(fs)@.live.files[ino].content,
            );
            let growth = if offset + buf@.len() > x.len() {
                offset + buf@.len() - x.len()
            } else {
                0
            };
            let is_full = match old(fs)@.config.capacity {
                Some(capacity) => capacity != u64::MAX && growth > 0 && model::used_bytes(
                    old(fs)@,
                ) + growth > capacity,
                None => false,
            };
            &&& is_full ==> r == Err::<usize, Error>(
                Error { kind: ErrorKind::Other, cause: Cause::NoSpace },
            ) && final(fs)@ == old(fs)@
            &&& !is_full ==> r == Ok::<usize, Error>(buf@.len() as usize)
            &&& !is_full && buf@.len() > 0 ==> y.len() == x.len() + growth
            &&& buf@.len() == 0 ==> y == x
            &&& !is_full && 0 <= k < buf@.len() ==> y[offset + k] == buf@[k]
        }),
{
    let before = old(fs)@;
    let ino = before.handles[f.fd].ino;
    assert(before.live.files.contains_key(ino));
    write_laws::law_capacity_bounds_the_disk(before, *f, now, buf@, addr, offset, chance);
    if r is Ok {
        write_laws::law_write_changes_its_bytes(
            before,
            *f,
            now,
            buf@,
            addr,
            offset,
            chance,
            offset + k,
            0,
        );
    }
}

/// A seek moves the cursor to the place that is asked for, counted from the start, the cursor or
/// the end of the bytes, and says where that is. A place before the start is refused, and so is
/// counting from the end of a file that is closed; the cursor stays then.
pub proof fn law_call_of_seek(f: &mut File, fs: &Fs, pos: SeekFrom, r: Result<u64, Error>)
    requires
        fs.wf(),
        old(f).wf(),
        call_ensures(File::seek, (f, fs, pos), r),
    ensures
        ({
            let content = fs@.live.files[fs@.handles[old(f).fd].ino].content;
            let lost = pos is End && !fs@.handles.contains_key(old(f).fd);
            let place = match pos {
                SeekFrom::Start(n) => n as int,
                SeekFrom::Current(n) => old(f).cursor + n,
                SeekFrom::End(n) => content.len() + n,
            };
            &&& lost ==> r == Err::<u64, Error>(
                Error { kind: ErrorKind::NotFound, cause: Cause::SeekFileNotFound },
            )
            &&& !lost && place < 0 ==> r == Err::<u64, Error>(
                Error { kind: ErrorKind::InvalidInput, cause: Cause::NegativeSeek },
            )
            &&& !lost && 0 <= place <= i64::MAX ==> r == Ok::<u64, Error>(place as u64)
            &&& r matches Ok(n) ==> final(f).cursor == n
            &&& r is Err ==> final(f).cursor == old(f).cursor
            &&& (final(f).fd, final(f).readable, final(f).writable, final(f).append_mode) == (
                old(f).fd,
                old(f).readable,
                old(f).writable,
                old(f).append_mode,
            )
        }),
{
}

/// An exact read gives all the bytes that it has room for, or fails where the file ends before.
pub proof fn law_call_of_read_exact_at(
    f: &File,
    fs: &Fs,
    buf: &mut [u8],
    addr: usize,
    offset: u64,
    chance: Chance,
    rng: &mut SmallRng,
    r: Result<(), Error>,
    k: int,
)
    requires
        fs.wf(),
        f.readable,
        !f.direct_io,
        !chance.io_error,
        fs@.handles.contains_key(f.fd),
        call_ensures(File::read_exact_at, (f, fs, buf, addr, offset, chance, rng), r),
    ensures
        ({
            let content = fs@.live.files[fs@.handles[f.fd].ino].content;
            let fits = old(buf)@.len() == 0 || offset + old(buf)@.len() <= content.len();
            &&& fits ==> r is Ok
            &&& !fits ==> r == Err::<(), Error>(
                Error { kind: ErrorKind::UnexpectedEof, cause: Cause::EndOfFile },
            )
            &&& fits && !chance.corrupt && 0 <= k < old(buf)@.len() ==> final(buf)@[k]
                == content[offset + k]
        }),
{
}

/// Syncing a file makes it durable as it is.
pub proof fn law_call_of_sync_all(f: &File, fs: &mut Fs, r: Result<(), Error>)
    requires
        old(fs).wf(),
        call_ensures(File::sync_all, (f, fs), r),
    ensures
        r is Ok <==> old(fs)@.handles.contains_key(f.fd),
        r is Ok ==> {
            let ino = old(fs)@.handles[f.fd].ino;
            &&& final(fs)@.persisted.files[ino] == old(fs)@.live.files[ino]
            &&& final(fs)@.persisted.nodes == old(fs)@.persisted.nodes
            &&& final(fs)@.pending == old(fs)@.pending.filter(
                |op: OpView|
                    match op {
                        OpView::Write { ino: m, .. } => m != ino,
                        OpView::SetLen { ino: m, .. } => m != ino,
                        _ => true,
                    },
            )
        },
        final(fs)@.live == old(fs)@.live,
{
    let before = old(fs)@;
    if before.handles.contains_key(f.fd) {
        let ino = before.handles[f.fd].ino;
        assert(before.persisted.files.contains_key(ino));
        entry_laws::law_synced_file_is_durable(before, ino, 0);
    }
}

/// A crash leaves the durable entries, on both disks, and nothing pending. Without torn writes it
/// leaves the durable bytes too; with them it leaves of each file without a durable name the
/// durable bytes, and nothing that no pending write put there.
pub proof fn law_call_of_discard_pending(fs: &mut Fs, rng: &mut SmallRng)
    requires
        old(fs).wf(),
        call_ensures(Fs::discard_pending, (fs, rng), ()),
    ensures
        final(fs)@.live == final(fs)@.persisted,
        final(fs)@.live.nodes == old(fs)@.persisted.nodes,
        final(fs)@.pending.len() == 0,
        old(fs)@.config.block_size is None ==> final(fs)@.live == old(fs)@.persisted,
        exists|blocks: Seq<u64>| final(fs)@ == #[trigger] model::crashed(old(fs)@, blocks),
{
    let before = old(fs)@;
    let blocks = choose|blocks: Seq<u64>|
        #![trigger model::crashed(before, blocks)]
        (before.config.block_size matches Some(block) ==> model::valid_tear(
            before.pending,
            block,
            blocks,
        )) && final(fs)@ == model::crashed(before, blocks);
    entry_laws::law_entries_after_a_crash(before, blocks);
}

/// A crash in which it is known how many blocks of each write got through leaves just these.
pub proof fn law_call_of_discard_pending_with(
    fs: &mut Fs,
    blocks: &Vec<u64>,
    ino: u64,
    block: u64,
    p: PathView,
)
    requires
        old(fs).wf(),
        call_ensures(Fs::discard_pending_with, (fs, blocks), ()),
        old(fs)@.config.block_size == Some(block),
        block > 0,
        blocks@.len() == old(fs)@.pending.len(),
        old(fs)@.persisted.files.contains_key(ino),
        old(fs)@.persisted.nodes.contains_key(p),
        old(fs)@.persisted.nodes[p] == NodeView::File(ino),
    ensures
        final(fs)@.live.nodes == old(fs)@.persisted.nodes,
        final(fs)@.pending.len() == 0,
        final(fs)@.persisted == final(fs)@.live,
        final(fs)@.live.files[ino].content == Seq::new(
            old(fs)@.pending.len(),
            |i: int| (old(fs)@.pending[i], blocks@[i]),
        ).fold_left(
            old(fs)@.persisted.files[ino].content,
            |bytes: Seq<u8>, part: (OpView, u64)| got_through(bytes, part.0, part.1, ino, block),
        ),
{
    let before = old(fs)@;
    assert(final(fs)@ == model::crashed(before, blocks@));
    write_laws::law_crash_leaves_what_got_through(before, blocks@, ino, block);
    let all = Seq::new(before.pending.len(), |i: int| (before.pending[i], blocks@[i]));
    lemma_through(before, blocks@, ino, block, before.pending.len());
    assert(all.take(before.pending.len() as int) =~= all);
    assert(before.pending.take(before.pending.len() as int) =~= before.pending);
}

/// The bytes with those of as many blocks of the operation as got through written over them,
/// where it is a write to the file.
pub open spec fn got_through(bytes: Seq<u8>, op: OpView, count: u64, ino: u64, block: u64) -> Seq<
    u8,
> {
    match op {
        OpView::Write { ino: n, offset, data, .. } => if n == ino && data.len() > 0 && count > 0 {
            let got = if count * block < data.len() {
                count * block
            } else {
                data.len() as int
            };
            Seq::new(
                if offset + got > bytes.len() {
                    (offset + got) as nat
                } else {
                    bytes.len()
                },
                |i: int|
                    if offset <= i < offset + got {
                        data[i - offset]
                    } else if i < bytes.len() {
                        bytes[i]
                    } else {
                        0u8
                    },
            )
        } else {
            bytes
        },
        _ => bytes,
    }
}

proof fn lemma_through(fs: FsView, blocks: Seq<u64>, ino: u64, block: u64, n: nat)
    requires
        n <= fs.pending.len(),
        blocks.len() == fs.pending.len(),
        fs.persisted.files.contains_key(ino),
        model::is_named(fs.persisted, ino),
    ensures
        ({
            let disk = model::torn(fs.persisted, fs.pending.take(n as int), block, blocks);
            let all = Seq::new(fs.pending.len(), |i: int| (fs.pending[i], blocks[i]));
            &&& disk.nodes == fs.persisted.nodes
            &&& disk.files.contains_key(ino)
            &&& disk.files[ino].content == all.take(n as int).fold_left(
                fs.persisted.files[ino].content,
                |bytes: Seq<u8>, part: (OpView, u64)|
                    got_through(bytes, part.0, part.1, ino, block),
            )
        }),
    decreases n,
{
    let step = |bytes: Seq<u8>, part: (OpView, u64)| got_through(bytes, part.0, part.1, ino, block);
    let all = Seq::new(fs.pending.len(), |i: int| (fs.pending[i], blocks[i]));
    let ops = fs.pending.take(n as int);
    if n > 0 {
        lemma_through(fs, blocks, ino, block, (n - 1) as nat);
        assert(ops.drop_last() =~= fs.pending.take(n - 1));
        assert(all.take(n as int).drop_last() =~= all.take(n - 1));
        let before = model::torn(fs.persisted, ops.drop_last(), block, blocks);
        let p = choose|p: PathView| #[trigger]
            fs.persisted.nodes.contains_key(p) && fs.persisted.nodes[p] == NodeView::File(ino);
        assert(before.nodes.contains_key(p));
        assert(model::is_named(before, ino));
        let after = model::torn(fs.persisted, ops, block, blocks);
        assert(after.files[ino].content =~= step(
            before.files[ino].content,
            (ops.last(), blocks[n - 1]),
        ));
    } else {
        assert(all.take(0) =~= Seq::empty());
        assert(ops =~= Seq::empty());
    }
}

/// Creating a directory succeeds where its parent stands and nothing stands at its path; it then
/// stands there, and is pending. Otherwise nothing changes.
pub proof fn law_call_of_create_dir(fs: &mut Fs, now: Duration, raw: &[u8], r: Result<(), Error>)
    requires
        old(fs).wf(),
        call_ensures(std_fs::create_dir, (fs, now, raw), r),
    ensures
        ({
            let p = path::parse(raw@);
            let n = old(fs)@.live.nodes;
            let parent = p.len() == 0 || (n.contains_key(p.take(p.len() - 1)) && n[p.take(
                p.len() - 1,
            )] is Dir);
            &&& r is Ok <==> parent && !n.contains_key(p)
            &&& !parent ==> r == Err::<(), Error>(
                Error { kind: ErrorKind::Other, cause: Cause::NoSuchEntry },
            )
            &&& parent && n.contains_key(p) ==> r == Err::<(), Error>(
                Error { kind: ErrorKind::Other, cause: Cause::EntryExists },
            )
            &&& r is Err ==> final(fs)@ == old(fs)@
            &&& r is Ok ==> {
                &&& final(fs)@.live.nodes.contains_key(p) && final(fs)@.live.nodes[p] is Dir
                &&& final(fs)@.live.nodes[p]->Dir_0.mode == 0o755
                &&& entry_laws::only_entry_changed(n, final(fs)@.live.nodes, p, now)
                &&& final(fs)@.persisted == old(fs)@.persisted
            }
        }),
{
    let p = path::parse(raw@);
    entry_laws::law_when_something_can_be_created(old(fs)@, p);
    if r is Ok {
        entry_laws::law_created_directory(old(fs)@, p, now, 0o755);
    }
}

/// Removing a directory succeeds where one stands with nothing in it, and removing a file where a
/// file or symbolic link stands. It is gone then. Otherwise nothing changes.
pub proof fn law_calls_that_remove(
    fs: &mut Fs,
    other: &mut Fs,
    now: Duration,
    raw: &[u8],
    r: Result<(), Error>,
    s: Result<(), Error>,
)
    requires
        call_ensures(std_fs::remove_dir, (fs, now, raw), r),
        call_ensures(std_fs::remove_file, (other, now, raw), s),
    ensures
        ({
            let p = path::parse(raw@);
            let n = old(fs)@.live.nodes;
            let dir = n.contains_key(p) && n[p] is Dir;
            let full = exists|q: PathView| #[trigger]
                n.contains_key(q) && entry_laws::stands_in(q, p);
            &&& r is Ok <==> dir && !full
            &&& dir && full ==> r == Err::<(), Error>(
                Error { kind: ErrorKind::Other, cause: Cause::DirectoryNotEmpty },
            )
            &&& !dir ==> r == Err::<(), Error>(
                Error { kind: ErrorKind::Other, cause: Cause::NoSuchEntry },
            )
            &&& r is Err ==> final(fs)@ == old(fs)@
            &&& r is Ok ==> !final(fs)@.live.nodes.contains_key(p)
                && entry_laws::only_entry_changed(n, final(fs)@.live.nodes, p, now)
                && final(fs)@.persisted == old(fs)@.persisted
        }),
        ({
            let p = path::parse(raw@);
            let n = old(other)@.live.nodes;
            &&& s is Ok <==> n.contains_key(p) && !(n[p] is Dir)
            &&& s is Err ==> s == Err::<(), Error>(
                Error { kind: ErrorKind::NotFound, cause: Cause::NoSuchEntry },
            ) && final(other)@ == old(other)@
            &&& s is Ok ==> !final(other)@.live.nodes.contains_key(p)
                && entry_laws::only_entry_changed(n, final(other)@.live.nodes, p, now)
                && final(other)@.persisted == old(other)@.persisted && final(other)@.live.files
                == old(other)@.live.files
        }),
{
    let p = path::parse(raw@);
    entry_laws::law_when_something_can_be_removed(old(fs)@, p);
    entry_laws::law_when_something_can_be_removed(old(other)@, p);
    entry_laws::law_removed_entry(old(fs)@, p, now);
    entry_laws::law_removed_entry(model::uncached(old(other)@, p), p, now);
}

/// A rename that succeeds moves the entry with all below it. One that fails changes nothing.
pub proof fn law_call_of_rename(
    fs: &mut Fs,
    now: Duration,
    from: &[u8],
    to: &[u8],
    r: Result<(), Error>,
    rest: PathView,
)
    requires
        call_ensures(std_fs::rename, (fs, now, from, to), r),
    ensures
        ({
            let (a, b) = (path::parse(from@), path::parse(to@));
            let n = old(fs)@.live.nodes;
            let full = exists|p: PathView| #[trigger]
                n.contains_key(p) && entry_laws::stands_in(p, b);
            let parent = b.len() == 0 || (n.contains_key(b.take(b.len() - 1)) && n[b.take(
                b.len() - 1,
            )] is Dir);
            let fits = !n.contains_key(b) || (n[a] is Dir && n[b] is Dir && !full) || (!(
            n[a] is Dir) && !(n[b] is Dir));
            &&& r is Ok <==> parent && n.contains_key(a) && (a == b || (fits
                && !entry_laws::starts_with(b, a) && !entry_laws::starts_with(a, b)))
            &&& r is Err ==> final(fs)@ == old(fs)@
            &&& r is Ok && a == b ==> final(fs)@ == old(fs)@
            &&& r is Ok && a != b ==> {
                let after = final(fs)@.live.nodes;
                &&& after.contains_key(b + rest) == n.contains_key(a + rest)
                &&& n.contains_key(a + rest) ==> after[b + rest] == n[a + rest]
                &&& !after.contains_key(a + rest)
                &&& final(fs)@.live.files == old(fs)@.live.files
                &&& final(fs)@.persisted == old(fs)@.persisted
            }
        }),
{
    let (a, b) = (path::parse(from@), path::parse(to@));
    entry_laws::law_when_something_can_be_renamed(old(fs)@, a, b);
    if r is Ok && a != b {
        let q = a + rest;
        assert forall|k: int| 0 <= k < a.len() implies #[trigger] q[k] == a[k] by {}
        entry_laws::law_renamed_entry(old(fs)@, a, b, now, rest, q);
    }
}

/// Syncing a directory succeeds where one stands. What stands in it then stands on the disk that
/// survives a crash, and nothing else does there.
pub proof fn law_call_of_sync_dir(
    fs: &mut Fs,
    now: Duration,
    raw: &[u8],
    r: Result<(), Error>,
    p: PathView,
)
    requires
        call_ensures(std_fs::sync_dir, (fs, now, raw), r),
    ensures
        ({
            let dir = path::parse(raw@);
            let n = old(fs)@.live.nodes;
            &&& r is Ok <==> n.contains_key(dir) && n[dir] is Dir
            &&& r is Err ==> final(fs)@ == old(fs)@ && r == Err::<(), Error>(
                Error { kind: ErrorKind::Other, cause: Cause::NoSuchEntry },
            )
            &&& r is Ok ==> final(fs)@.live == old(fs)@.live && final(fs)@.pending
                == old(fs)@.pending.filter(|op: OpView| !entry_laws::is_about(op, dir))
            &&& r is Ok && (p == dir || entry_laws::stands_in(p, dir)) ==> {
                let m = final(fs)@.persisted.nodes;
                &&& m.contains_key(p) == n.contains_key(p)
                &&& n.contains_key(p) && !(n[p] is Dir) ==> m[p] == n[p]
                &&& n.contains_key(p) && n[p] is Dir ==> m[p] is Dir
            }
        }),
{
    entry_laws::law_synced_directory_is_durable(old(fs)@, path::parse(raw@), now, p);
}

/// A symbolic link that is made stands at its path with its target. A further name that is made
/// leads to the file. Neither is made where something stands or the directory does not.
pub proof fn law_calls_that_link(
    fs: &mut Fs,
    other: &mut Fs,
    now: Duration,
    original: &[u8],
    link: &[u8],
    r: Result<(), Error>,
    s: Result<(), Error>,
)
    requires
        old(other).wf(),
        call_ensures(std_fs::symlink, (fs, now, original, link), r),
        call_ensures(std_fs::hard_link, (other, now, original, link), s),
    ensures
        ({
            let p = path::parse(link@);
            let n = old(fs)@.live.nodes;
            let parent = p.len() == 0 || (n.contains_key(p.take(p.len() - 1)) && n[p.take(
                p.len() - 1,
            )] is Dir);
            &&& r is Ok <==> parent && !n.contains_key(p)
            &&& r is Err ==> final(fs)@ == old(fs)@
            &&& r is Ok ==> {
                &&& final(fs)@.live.nodes.contains_key(p)
                &&& final(fs)@.live.nodes[p] matches NodeView::Symlink(l) && l.target == original@
                &&& entry_laws::only_entry_changed(n, final(fs)@.live.nodes, p, now)
                &&& final(fs)@.live.files == old(fs)@.live.files
            }
        }),
        ({
            let (p, q) = (path::parse(link@), path::parse(original@));
            let n = old(other)@.live.nodes;
            let parent = p.len() == 0 || (n.contains_key(p.take(p.len() - 1)) && n[p.take(
                p.len() - 1,
            )] is Dir);
            &&& s is Ok <==> parent && n.contains_key(q) && n[q] is File && !n.contains_key(p)
            &&& s is Err ==> final(other)@ == old(other)@
            &&& s is Ok ==> {
                &&& final(other)@.live.nodes.contains_key(p) && final(other)@.live.nodes[p] == n[q]
                &&& entry_laws::only_entry_changed(n, final(other)@.live.nodes, p, now)
            }
        }),
{
    let (p, q) = (path::parse(link@), path::parse(original@));
    entry_laws::law_when_something_can_be_created(old(fs)@, p);
    entry_laws::law_when_names_and_permissions_can_be_set(old(other)@, p, q);
    if r is Ok {
        entry_laws::law_created_symlink(old(fs)@, p, original@, now);
    }
    if s is Ok {
        let n = old(other)@.live.nodes;
        assert(n.contains_key(q));
        let ino = n[q]->File_0;
        assert(old(other)@.live.files.contains_key(ino));
        entry_laws::law_created_hard_link(old(other)@, p, ino, now);
    }
}

/// Reading a directory lists each entry that stands in it once, and nothing else.
pub proof fn law_call_of_read_dir(fs: &Fs, raw: &[u8], r: Result<ReadDir, Error>, p: PathView)
    requires
        call_ensures(std_fs::read_dir, (fs, raw), r),
    ensures
        ({
            let dir = path::parse(raw@);
            let n = fs@.live.nodes;
            &&& r is Ok <==> n.contains_key(dir) && n[dir] is Dir
            &&& r matches Ok(d) ==> {
                let names = d.entries@;
                &&& (exists|i: int| 0 <= i < names.len() && (#[trigger] names[i])@ == p) <==> (
                n.contains_key(p) && entry_laws::stands_in(p, dir))
                &&& forall|i: int, j: int|
                    0 <= i < j < names.len() ==> (#[trigger] names[i])@ != (#[trigger] names[j])@
            }
            &&& r is Err ==> r == Err::<ReadDir, Error>(
                Error { kind: ErrorKind::NotFound, cause: Cause::DirectoryNotFound },
            )
        }),
{
    let dir = path::parse(raw@);
    entry_laws::lemma_stands_in(p, dir);
    if let Ok(d) = r {
        assert(crate::collections::lists(d.entries@, p) == (fs@.live.nodes.contains_key(p)
            && path::is_child(p, dir)));
    }
}

/// Removing a directory with all below it leaves nothing there and all else where it stood.
pub proof fn law_call_of_remove_dir_all(
    fs: &mut Fs,
    now: Duration,
    raw: &[u8],
    r: Result<(), Error>,
    p: PathView,
)
    requires
        call_ensures(tree::remove_dir_all, (fs, now, raw), r),
    ensures
        ({
            let dir = path::parse(raw@);
            let n = old(fs)@.live.nodes;
            let m = final(fs)@.live.nodes;
            &&& r is Ok <==> n.contains_key(dir) && n[dir] is Dir
            &&& r is Err ==> final(fs)@ == old(fs)@ && r == Err::<(), Error>(
                Error { kind: ErrorKind::NotFound, cause: Cause::DirectoryNotFound },
            )
            &&& r is Ok ==> {
                &&& m.contains_key(p) <==> n.contains_key(p) && !entry_laws::starts_with(p, dir)
                &&& m.contains_key(p) && !entry_laws::stands_in(dir, p) ==> m[p] == n[p]
                &&& final(fs)@.live.files == old(fs)@.live.files
                &&& final(fs)@.persisted == old(fs)@.persisted
            }
        }),
{
    let dir = path::parse(raw@);
    entry_laws::law_removed_tree(model::uncached_tree(old(fs)@, dir), dir, now, p);
}

/// A read that takes time needs no alignment. It fails only where the file is not open for
/// reading, the disk fails or the file is closed, and gives the bytes from its place on. Its page
/// is the most recent one in the cache afterwards, unless it bypasses the cache.
pub proof fn law_call_of_slow_read(
    f: &tokio_fs::File,
    fs: &mut Fs,
    buf: &mut [u8],
    offset: u64,
    chance: Chance,
    pace: Pace,
    rng: &mut SmallRng,
    r: (Result<(usize, Option<FsCorruption>), Error>, Duration),
    k: int,
)
    requires
        old(fs).wf(),
        call_ensures(tokio_fs::File::read_at, (f, fs, buf, offset, chance, pace, rng), r),
        tokio_fs::fits(old(fs)@, pace),
    ensures
        ({
            let v = old(fs)@;
            let content = v.live.files[v.handles[f.inner.fd].ino].content;
            &&& r.0 is Ok <==> f.inner.readable && !chance.io_error && v.handles.contains_key(
                f.inner.fd,
            )
            &&& r.0 matches Ok((n, None)) ==> (0 <= k < n ==> final(buf)@[k] == content[offset + k])
            &&& v.config.io_latency is None ==> r.1.nanos == 0
            &&& v.config.io_latency matches Some(l) ==> (v.pages is None ==> r.1.nanos
                == l.min_latency.nanos + pace.scaled.nanos)
            &&& f.inner.direct_io ==> final(fs)@ == v
            &&& (final(fs)@.live, final(fs)@.persisted, final(fs)@.pending, final(fs)@.handles) == (
                v.live,
                v.persisted,
                v.pending,
                v.handles,
            )
        }),
{
    let v = old(fs)@;
    let g = tokio_fs::buffered(f.inner);
    assert(g.fd == f.inner.fd && g.readable == f.inner.readable && !g.direct_io);
    open_laws::law_read_fails_for_a_reason(
        v,
        g,
        0,
        offset,
        chance,
        old(buf)@,
        final(buf)@,
        r.0,
    );
    if r.0 is Ok {
        open_laws::law_read_gives_the_bytes(
            v,
            g,
            0,
            offset,
            chance,
            old(buf)@,
            final(buf)@,
            r.0,
        );
        if r.0->Ok_0.1 is None && 0 <= k < r.0->Ok_0.0 {
            let content = v.live.files[v.handles[g.fd].ino].content;
            assert(final(buf)@[k] == content[offset + k]);
        }
    }
}

/// A write that takes time needs no alignment, changes what a write without does, and takes the
/// time of the disk.
pub proof fn law_call_of_slow_write(
    f: &tokio_fs::File,
    fs: &mut Fs,
    now: Duration,
    buf: &[u8],
    offset: u64,
    chance: Chance,
    pace: Pace,
    r: (Result<usize, Error>, Duration),
    k: int,
)
    requires
        old(fs).wf(),
        offset + buf@.len() <= isize::MAX,
        call_ensures(tokio_fs::File::write_at, (f, fs, now, buf, offset, chance, pace), r),
        tokio_fs::fits(old(fs)@, pace),
    ensures
        ({
            let v = old(fs)@;
            let ino = v.handles[f.inner.fd].ino;
            &&& r.0 is Ok ==> f.inner.writable && !chance.io_error && v.handles.contains_key(
                f.inner.fd,
            ) && r.0->Ok_0 == buf@.len()
            &&& r.0 is Ok && 0 <= k < buf@.len() ==> final(fs)@.live.files[ino].content[offset + k]
                == buf@[k]
            &&& r.0 is Err ==> final(fs)@.live == v.live && final(fs)@.persisted == v.persisted
                && final(fs)@.pending == v.pending
            &&& v.config.io_latency is None ==> r.1.nanos == 0
            &&& v.config.io_latency matches Some(l) ==> r.1.nanos == l.min_latency.nanos
                + pace.scaled.nanos
        }),
{
    let v = old(fs)@;
    let g = tokio_fs::buffered(f.inner);
    assert(g.fd == f.inner.fd && g.writable == f.inner.writable && !g.direct_io);
    write_laws::law_write_fails_for_a_reason(v, g, now, buf@, 0, offset, chance);
    if r.0 is Ok {
        write_laws::law_write_changes_its_bytes(v, g, now, buf@, 0, offset, chance, offset + k, 0);
    }
}

} // verus!
