//! Laws of the filesystem.
use crate::error::{Cause, Error};
use crate::fs::cache;
use crate::fs::file;
use crate::fs::file::{File, FsCorruption, OpenOptions};
use crate::fs::model;
use crate::fs::model::{DiskView, FileView, FsView, NodeView, OpView, MAX_SYMLINK_FOLLOWS};
use crate::fs::state;
use crate::fs::std_fs;
use crate::fs::std_fs::Chance;
use crate::fs::tree;
use crate::fs::tree::Turn;
use crate::path;
use crate::path::PathView;
use crate::time::Duration;
use vstd::prelude::*;

verus! {

/// Whether the operation names the path, or something above it that it moves or removes.
pub open spec fn names(op: OpView, path: PathView) -> bool {
    match op {
        OpView::CreateFile { path: p, .. } => p == path,
        OpView::CreateDir { path: p, .. } => p == path,
        OpView::CreateSymlink { path: p, .. } => p == path,
        OpView::CreateHardLink { path: p, .. } => p == path,
        OpView::Write { .. } => false,
        OpView::SetLen { .. } => false,
        OpView::SetPermissions { path: p, .. } => p == path,
        OpView::Rename { from, to, .. } => model::is_within(path, from) || model::is_within(path, to),
        OpView::RemoveFile { path: p, .. } => p == path,
        OpView::RemoveDir { path: p, .. } => p == path,
        OpView::RemoveTree { path: p, .. } => model::is_within(path, p),
    }
}

/// Whether the operation changes the file with the number.
pub open spec fn changes_file(disk: DiskView, op: OpView, ino: u64) -> bool {
    match op {
        OpView::CreateFile { ino: n, .. } => n == ino && !disk.files.contains_key(ino),
        OpView::CreateHardLink { ino: n, .. } => n == ino,
        OpView::Write { ino: n, .. } => n == ino,
        OpView::SetLen { ino: n, .. } => n == ino,
        OpView::SetPermissions { path, .. } => disk.nodes.contains_key(path) && disk.nodes[path]
            == NodeView::File(ino),
        _ => false,
    }
}

/// An operation keeps every entry that it does not name and every file but the one that it
/// changes.
pub proof fn law_operation_keeps_other_entries(disk: DiskView, op: OpView, path: PathView, ino: u64)
    ensures
        !names(op, path) ==> {
            let after = model::apply(disk, op);
            &&& model::anything_at(after, path) == model::anything_at(disk, path)
            &&& model::anything_at(disk, path) ==> after.nodes[path] == disk.nodes[path]
        },
        !changes_file(disk, op, ino) ==> {
            let after = model::apply(disk, op);
            &&& after.files.contains_key(ino) == disk.files.contains_key(ino)
            &&& disk.files.contains_key(ino) ==> after.files[ino] == disk.files[ino]
        },
{
}

/// An operation that programs carry out keeps every entry that it does not name too, but for
/// the times of the directories in which it changes something.
pub proof fn law_carried_out_operation_keeps_other_entries(
    disk: DiskView,
    op: OpView,
    path: PathView,
    ino: u64,
)
    ensures
        !names(op, path) ==> {
            let after = model::carried_out(disk, op);
            &&& model::anything_at(after, path) == model::anything_at(disk, path)
            &&& model::anything_at(disk, path) ==> is_same_but_times(
                disk.nodes[path],
                after.nodes[path],
            )
            &&& model::anything_at(disk, path) && !model::changes_entries_of(op, path)
                ==> after.nodes[path] == disk.nodes[path]
        },
        !changes_file(disk, op, ino) ==> {
            let after = model::carried_out(disk, op);
            &&& after.files.contains_key(ino) == disk.files.contains_key(ino)
            &&& disk.files.contains_key(ino) ==> after.files[ino] == disk.files[ino]
        },
{
}

/// The time at which programs carry the operation out, where it changes which entries a
/// directory has.
pub open spec fn time_of(op: OpView) -> Option<Duration> {
    match op {
        OpView::CreateFile { time, .. } => Some(time),
        OpView::CreateDir { time, .. } => Some(time),
        OpView::CreateSymlink { time, .. } => Some(time),
        OpView::CreateHardLink { time, .. } => Some(time),
        OpView::Rename { time, .. } => Some(time),
        OpView::RemoveFile { time, .. } => Some(time),
        OpView::RemoveDir { time, .. } => Some(time),
        OpView::RemoveTree { time, .. } => Some(time),
        _ => None,
    }
}

/// A directory in which programs create, remove or rename something was modified at that time,
/// and is as old as it was.
pub proof fn law_directory_is_modified(disk: DiskView, op: OpView, dir: PathView)
    requires
        model::changes_entries_of(op, dir),
        model::dir_exists(disk, dir),
        !names(op, dir),
    ensures
        model::dir_times(model::carried_out(disk, op), dir) == Some(
            (disk.nodes[dir]->Dir_0.crtime, time_of(op).unwrap(), time_of(op).unwrap()),
        ),
        model::dir_mode(model::carried_out(disk, op), dir) == model::dir_mode(disk, dir),
{
}

/// A rename takes all that stands below what it moves along: it stands at the same place below
/// the new path, and nowhere else.
pub proof fn law_rename_takes_all_along(
    disk: DiskView,
    from: PathView,
    to: PathView,
    time: Duration,
    rest: PathView,
)
    requires
        model::anything_at(disk, from),
        !model::is_within(from, to),
        !model::is_within(to, from),
    ensures
        ({
            let after = model::apply(disk, OpView::Rename { from, to, time });
            &&& model::anything_at(after, to + rest) == model::anything_at(disk, from + rest)
            &&& model::anything_at(disk, from + rest) ==> after.nodes[to + rest]
                == disk.nodes[from + rest]
            &&& !model::anything_at(after, from + rest)
        }),
{
    let p = to + rest;
    assert(p.take(to.len() as int) =~= to);
    assert(p.skip(to.len() as int) =~= rest);
    let q = from + rest;
    assert(q.take(from.len() as int) =~= from);
    if model::is_within(q, to) {
        if from.len() <= to.len() {
            assert(to.take(from.len() as int) =~= q.take(from.len() as int));
        } else {
            assert(from.take(to.len() as int) =~= q.take(to.len() as int));
        }
    }
}

/// An operation that speaks of a file that there is not, or of a path at which nothing stands
/// where it needs something, changes nothing, and neither does creating what stands already.
pub proof fn law_operation_without_subject_changes_nothing(disk: DiskView, op: OpView)
    ensures
        match op {
            OpView::Write { ino, .. } => !disk.files.contains_key(ino),
            OpView::SetLen { ino, .. } => !disk.files.contains_key(ino),
            OpView::CreateHardLink { ino, .. } => !disk.files.contains_key(ino),
            OpView::SetPermissions { path, .. } => !model::anything_at(disk, path),
            OpView::Rename { from, .. } => !model::anything_at(disk, from),
            OpView::CreateFile { path, .. } => model::file_exists(disk, path),
            OpView::CreateDir { path, .. } => model::dir_exists(disk, path),
            OpView::CreateSymlink { path, .. } => model::symlink_exists(disk, path),
            _ => false,
        } ==> model::apply(disk, op) == disk,
{
}

/// Whether every entry stands in a directory.
pub open spec fn is_rooted(disk: DiskView) -> bool {
    forall|p: PathView| #[trigger]
        disk.nodes.contains_key(p) && p.len() > 0 ==> model::dir_exists(disk, p.drop_last())
}

/// Whether programs can carry the operation out.
pub open spec fn is_allowed(fs: FsView, op: OpView) -> bool {
    match op {
        OpView::CreateFile { path, .. } => model::mkdir_result(fs, path) is Ok,
        OpView::CreateDir { path, .. } => model::mkdir_result(fs, path) is Ok,
        OpView::CreateSymlink { path, .. } => model::mkdir_result(fs, path) is Ok,
        OpView::CreateHardLink { path, .. } => model::mkdir_result(fs, path) is Ok,
        OpView::Rename { from, to, .. } => model::rename_result(fs, from, to) is Ok && from != to,
        OpView::RemoveFile { path, .. } => model::unlink_result(fs, path) is Ok,
        OpView::RemoveDir { path, .. } => model::rmdir_result(fs, path) is Ok,
        OpView::RemoveTree { path, .. } => model::dir_exists(fs.live, path),
        _ => true,
    }
}

/// Every entry that programs see stands in a directory. That holds of a new filesystem, every
/// operation that programs can carry out and every sync keeps it, and a crash gives it where
/// it holds of what is durable.
pub proof fn law_entries_stand_in_directories(
    fs: FsView,
    op: OpView,
    ino: u64,
    dir: PathView,
    time: Duration,
    blocks: Seq<u64>,
)
    ensures
        is_rooted(model::empty_disk()),
        is_rooted(fs.live) && is_allowed(fs, op) ==> is_rooted(model::pushed(fs, op).live),
        is_rooted(fs.live) ==> is_rooted(model::file_synced(fs, ino).live) && is_rooted(
            model::dir_synced(fs, dir, time).live,
        ),
        is_rooted(fs.persisted) ==> is_rooted(model::crashed(fs, blocks).live),
{
    if is_rooted(fs.live) && is_allowed(fs, op) {
        lemma_stays_rooted(fs, op);
    }
    law_crash_keeps_only_durable(fs, blocks);
    if is_rooted(fs.persisted) {
        let after = model::crashed(fs, blocks).live;
        assert forall|p: PathView| #[trigger] after.nodes.contains_key(p) && p.len() > 0 implies
            model::dir_exists(after, p.drop_last()) by {
            assert(fs.persisted.nodes.contains_key(p));
        }
    }
}

/// An operation that programs can carry out leaves every entry in a directory.
proof fn lemma_stays_rooted(fs: FsView, op: OpView)
    requires
        is_rooted(fs.live),
        is_allowed(fs, op),
    ensures
        is_rooted(model::pushed(fs, op).live),
{
    let before = fs.live;
    let middle = model::apply(before, op);
    let after = model::carried_out(before, op);
    assert forall|p: PathView| #[trigger] middle.nodes.contains_key(p) && p.len() > 0 implies
        model::dir_exists(middle, p.drop_last()) by {
        let dir = p.drop_last();
        match op {
            OpView::Rename { from, to, .. } => {
                let was = model::stood_at(from, to, p);
                assert(before.nodes.contains_key(was));
                lemma_parent_within(p, to);
                lemma_parent_within(p, from);
                if model::is_within(p, to) {
                    if p.len() == to.len() {
                        assert(p.take(to.len() as int) =~= p);
                        assert(!model::is_within(dir, to));
                        assert(!model::is_within(dir, from)) by {
                            lemma_parent_within(to, from);
                        }
                        assert(model::dir_exists(before, dir));
                    } else {
                        assert(model::is_within(dir, to));
                        assert(was.drop_last() =~= model::stood_at(from, to, dir));
                        assert(model::dir_exists(before, was.drop_last()));
                    }
                } else {
                    assert(!model::is_within(dir, to));
                    assert(!model::is_within(dir, from));
                    assert(model::dir_exists(before, dir));
                }
            },
            OpView::RemoveDir { path, .. } => {
                assert(before.nodes.contains_key(p));
                assert(dir != path) by {
                    if dir == path {
                        assert(path::is_child(p, path));
                    }
                }
            },
            OpView::RemoveTree { path, .. } => {
                assert(before.nodes.contains_key(p));
                lemma_parent_within(p, path);
            },
            _ => {},
        }
    }
    assert forall|p: PathView| #[trigger] after.nodes.contains_key(p) && p.len() > 0 implies
        model::dir_exists(after, p.drop_last()) by {
        assert(middle.nodes.contains_key(p));
    }
}

/// What stands in something within a path is within the path, and but for the path itself
/// only that is.
proof fn lemma_parent_within(path: PathView, top: PathView)
    requires
        path.len() > 0,
    ensures
        model::is_within(path.drop_last(), top) == (model::is_within(path, top) && path.len()
            > top.len()),
{
    if path.len() > top.len() {
        assert(path.drop_last().take(top.len() as int) =~= path.take(top.len() as int));
    }
}

/// What is written to a file is what is read back from there.
pub proof fn law_read_after_write(
    fs: FsView,
    ino: u64,
    offset: u64,
    data: Seq<u8>,
    time: Duration,
)
    requires
        model::fs_wf(fs),
        ino < fs.next_ino,
        offset + data.len() <= isize::MAX,
    ensures
        ({
            let after = model::pushed(fs, OpView::Write { ino, offset, data, time });
            let content = after.live.files[ino].content;
            &&& model::read_len(content, offset, data.len()) == data.len()
            &&& model::read_bytes(content, offset, data.len()) == data
        }),
{
    assert(fs.live.files.contains_key(ino));
    let content = model::overwritten(fs.live.files[ino].content, offset as nat, data);
    assert(model::read_bytes(content, offset, data.len()) =~= data);
}

/// What a write through an open file wrote is what a read through it gives back from there,
/// unless chance corrupts a byte.
pub proof fn law_read_at_after_write_at(
    fs: FsView,
    file: File,
    now: Duration,
    data: Seq<u8>,
    addr: usize,
    offset: u64,
    on_write: Chance,
    on_read: Chance,
    before: Seq<u8>,
    after: Seq<u8>,
    r: Result<(usize, Option<FsCorruption>), Error>,
)
    requires
        model::fs_wf(fs),
        offset + data.len() <= isize::MAX,
        before.len() == data.len(),
        file::written(fs, file, now, data, addr, offset, on_write).1 is Ok,
        file::reads_at(
            file::written(fs, file, now, data, addr, offset, on_write).0,
            file,
            addr,
            offset,
            on_read,
            before,
            after,
            r,
        ),
        r is Ok,
        !on_read.corrupt,
    ensures
        after == data,
{
    let ino = fs.handles[file.fd].ino;
    assert(fs.live.files.contains_key(ino));
    law_read_after_write(fs, ino, offset, data, now);
    let n = r->Ok_0.0;
    assert(before.skip(n as int) =~= Seq::empty());
    assert(data + Seq::<u8>::empty() =~= data);
}

/// A write leaves the bytes before it and behind it as they are, and fills a gap with zeros.
pub proof fn law_write_keeps_other_bytes(
    fs: FsView,
    ino: u64,
    offset: u64,
    data: Seq<u8>,
    time: Duration,
    i: int,
)
    requires
        model::fs_wf(fs),
        ino < fs.next_ino,
        0 <= i < offset || offset + data.len() <= i,
    ensures
        ({
            let before = fs.live.files[ino].content;
            let after = model::pushed(
                fs,
                OpView::Write { ino, offset, data, time },
            ).live.files[ino].content;
            i < after.len() ==> after[i] == (if i < before.len() {
                before[i]
            } else {
                0
            })
        }),
{
    assert(fs.live.files.contains_key(ino));
}

/// Bytes that were cut off are zeros once the file is extended again.
pub proof fn law_cut_bytes_are_zeros(fs: FsView, ino: u64, cut: u64, len: u64, time: Duration)
    requires
        model::fs_wf(fs),
        ino < fs.next_ino,
        cut <= len,
    ensures
        ({
            let short = model::pushed(fs, OpView::SetLen { ino, len: cut, time });
            let long = model::pushed(short, OpView::SetLen { ino, len, time });
            let content = long.live.files[ino].content;
            &&& content.len() == len
            &&& forall|i: int| cut <= i < len ==> #[trigger] content[i] == 0
        }),
{
    assert(fs.live.files.contains_key(ino));
}

/// The bytes that programs see in a file are the durable ones with the pending operations
/// carried out, in every state that the filesystem can be in.
pub proof fn law_content_is_durable_and_pending(fs: FsView, ino: u64)
    requires
        model::fs_wf(fs),
        ino < fs.next_ino,
    ensures
        fs.live.files[ino].content == model::content_after(
            fs.persisted.files[ino].content,
            fs.pending,
            ino,
        ),
{
    assert(fs.live.files.contains_key(ino));
}

/// Making the data of a file durable changes nothing that programs see.
pub proof fn law_sync_keeps_content(fs: FsView, ino: u64)
    ensures
        model::file_synced(fs, ino).live == fs.live,
{
}

/// Making the entries of a directory durable changes nothing that programs see.
pub proof fn law_sync_dir_keeps_everything(fs: FsView, dir: PathView, time: Duration)
    ensures
        model::dir_synced(fs, dir, time).live == fs.live,
{
}

/// Whether the operation can put something else in the place of a directory at the path.
pub open spec fn displaces(op: OpView, path: PathView) -> bool {
    names(op, path) && !(op is CreateDir) && !(op is SetPermissions)
}

/// Making the entries of a directory durable leaves every directory that is durable with the
/// permission bits that it had, and but for the synced one with its times, unless it was
/// removed, renamed or replaced.
pub proof fn law_sync_dir_keeps_durable_directories(
    fs: FsView,
    dir: PathView,
    time: Duration,
    path: PathView,
)
    requires
        model::dir_exists(fs.persisted, path),
        forall|i: int|
            0 <= i < fs.pending.len() && model::is_entry_op(#[trigger] fs.pending[i], dir)
                ==> !displaces(fs.pending[i], path),
    ensures
        ({
            let after = model::dir_synced(fs, dir, time).persisted;
            model::dir_exists(after, path) ==> {
                &&& model::dir_mode(after, path) == model::dir_mode(fs.persisted, path)
                &&& path != dir ==> model::dir_times(after, path) == model::dir_times(
                    fs.persisted,
                    path,
                )
            }
        }),
{
    lemma_durable_directory_stays(fs.persisted, fs.pending, dir, path);
}

proof fn lemma_durable_directory_stays(
    disk: DiskView,
    ops: Seq<OpView>,
    dir: PathView,
    path: PathView,
)
    requires
        model::dir_exists(disk, path),
        forall|i: int|
            0 <= i < ops.len() && model::is_entry_op(#[trigger] ops[i], dir) ==> !displaces(
                ops[i],
                path,
            ),
    ensures
        model::dir_exists(model::entries_flushed(disk, ops, dir), path),
        model::entries_flushed(disk, ops, dir).nodes[path] == disk.nodes[path],
    decreases ops.len(),
{
    if ops.len() > 0 {
        assert forall|i: int|
            0 <= i < ops.drop_last().len() && model::is_entry_op(
                #[trigger] ops.drop_last()[i],
                dir,
            ) implies !displaces(ops.drop_last()[i], path) by {
            assert(ops[i] == ops.drop_last()[i]);
        }
        lemma_durable_directory_stays(disk, ops.drop_last(), dir, path);
        let op = ops[ops.len() - 1];
        assert(model::is_entry_op(op, dir) ==> !displaces(op, path));
    }
}

/// Making the entries of a directory durable leaves pending, in order, just the operations
/// that are none of its own: every write, cut and change of permission bits stays.
pub proof fn law_sync_dir_leaves_the_rest_pending(
    fs: FsView,
    dir: PathView,
    time: Duration,
    op: OpView,
)
    ensures
        ({
            let left = model::dir_synced(fs, dir, time).pending;
            &&& left == fs.pending.filter(|o: OpView| !model::is_entry_op(o, dir))
            &&& left.contains(op) == (fs.pending.contains(op) && !model::is_entry_op(op, dir))
            &&& op is Write || op is SetLen || op is SetPermissions ==> left.contains(op)
                == fs.pending.contains(op)
        }),
{
    let keep = |o: OpView| !model::is_entry_op(o, dir);
    let left = fs.pending.filter(keep);
    if left.contains(op) {
        fs.pending.lemma_filter_contains_rev(keep, op);
        let i = choose|i: int| 0 <= i < left.len() && left[i] == op;
        fs.pending.lemma_filter_pred(keep, i);
    }
    if fs.pending.contains(op) && keep(op) {
        let i = choose|i: int| 0 <= i < fs.pending.len() && fs.pending[i] == op;
        fs.pending.lemma_filter_contains(keep, i);
    }
}

/// A crash tears only bytes: the entries of the disk stay, and so do the files that no torn
/// operation writes to.
proof fn lemma_torn(disk: DiskView, ops: Seq<OpView>, block: u64, blocks: Seq<u64>, ino: u64)
    ensures
        model::torn(disk, ops, block, blocks).nodes == disk.nodes,
        forall|n: u64| #[trigger]
            model::torn(disk, ops, block, blocks).files.contains_key(n) <==> disk.files.contains_key(
                n,
            ),
        is_untouched(ops, ino) || !model::is_named(disk, ino) ==> model::torn(
            disk,
            ops,
            block,
            blocks,
        ).files[ino] == disk.files[ino],
    decreases ops.len(),
{
    if ops.len() > 0 {
        lemma_torn(disk, ops.drop_last(), block, blocks, ino);
        let before = model::torn(disk, ops.drop_last(), block, blocks);
        assert(model::is_named(before, ino) == model::is_named(disk, ino));
        if is_untouched(ops, ino) {
            assert forall|i: int| 0 <= i < ops.drop_last().len() implies !model::is_data_of(
                #[trigger] ops.drop_last()[i],
                ino,
            ) by {
                assert(!model::is_data_of(ops[i], ino));
            }
            assert(!model::is_data_of(ops[ops.len() - 1], ino));
        }
    }
}

/// Whether no operation changes the bytes of the file.
pub open spec fn is_untouched(ops: Seq<OpView>, ino: u64) -> bool {
    forall|i: int| 0 <= i < ops.len() ==> !model::is_data_of(#[trigger] ops[i], ino)
}

/// A crash leaves nothing pending, and programs see what is durable: the entries are those of
/// the disk that survives.
pub proof fn law_crash_keeps_only_durable(fs: FsView, blocks: Seq<u64>)
    ensures
        ({
            let after = model::crashed(fs, blocks);
            &&& after.pending.len() == 0
            &&& after.live == after.persisted
            &&& after.live.nodes == fs.persisted.nodes
            &&& fs.config.block_size is None ==> after.live == fs.persisted
        }),
{
    if let Some(block) = fs.config.block_size {
        lemma_torn(fs.persisted, fs.pending, block, blocks, 0);
    }
}

/// A crash leaves a durable file just as it is on the disk that survives, where no write to
/// it is pending or writes do not tear.
pub proof fn law_crash_keeps_durable_files(fs: FsView, blocks: Seq<u64>, path: PathView)
    requires
        model::file_exists(fs.persisted, path),
        fs.config.block_size is None || is_untouched(
            fs.pending,
            model::number_at(fs.persisted, path),
        ),
    ensures
        model::file_exists(model::crashed(fs, blocks).live, path),
        model::file_at(model::crashed(fs, blocks).live, path) == model::file_at(
            fs.persisted,
            path,
        ),
{
    if let Some(block) = fs.config.block_size {
        lemma_torn(
            fs.persisted,
            fs.pending,
            block,
            blocks,
            model::number_at(fs.persisted, path),
        );
    }
}

/// A second crash changes nothing.
pub proof fn law_crash_twice(fs: FsView, first: Seq<u64>, second: Seq<u64>)
    ensures
        model::crashed(model::crashed(fs, first), second) == model::crashed(fs, first),
{
}

/// A file whose name is not durable is lost in a crash, even after its data has been made
/// durable.
pub proof fn law_orphan_is_lost(fs: FsView, blocks: Seq<u64>, path: PathView)
    requires
        !model::anything_at(fs.persisted, path),
    ensures
        ({
            let synced = model::file_synced(fs, model::number_at(fs.live, path));
            !model::anything_at(model::crashed(synced, blocks).live, path)
        }),
{
    law_crash_keeps_only_durable(
        model::file_synced(fs, model::number_at(fs.live, path)),
        blocks,
    );
}

/// Dropping operations from the pending ones adds none that changes a file.
proof fn lemma_still_untouched(ops: Seq<OpView>, dir: PathView, ino: u64)
    requires
        is_untouched(ops, ino),
    ensures
        is_untouched(model::not_entry_ops(ops, dir), ino),
{
    let keep = |op: OpView| !model::is_entry_op(op, dir);
    let left = ops.filter(keep);
    assert forall|i: int| 0 <= i < left.len() implies !model::is_data_of(
        #[trigger] left[i],
        ino,
    ) by {
        assert(left.contains(left[i]));
        ops.lemma_filter_contains_rev(keep, left[i]);
        let j = choose|j: int| 0 <= j < ops.len() && ops[j] == left[i];
        assert(!model::is_data_of(ops[j], ino));
    }
}

/// No operation on a file is pending once its data has been made durable.
proof fn lemma_synced_is_untouched(ops: Seq<OpView>, ino: u64)
    ensures
        is_untouched(model::not_data_ops(ops, ino), ino),
{
    let keep = |op: OpView| !model::is_data_of(op, ino);
    let left = ops.filter(keep);
    assert forall|i: int| 0 <= i < left.len() implies !model::is_data_of(
        #[trigger] left[i],
        ino,
    ) by {
        ops.lemma_filter_pred(keep, i);
    }
}

/// Whether the files are the same, but for when anything about them last changed.
pub open spec fn is_same_but_change_time(a: FileView, b: FileView) -> bool {
    FileView { ctime: b.ctime, ..a } == b
}

/// Making entries durable leaves the files of the disk, but for when they last changed.
proof fn lemma_flush_keeps_files(disk: DiskView, ops: Seq<OpView>, dir: PathView, ino: u64)
    requires
        disk.files.contains_key(ino),
    ensures
        model::entries_flushed(disk, ops, dir).files.contains_key(ino),
        is_same_but_change_time(
            model::entries_flushed(disk, ops, dir).files[ino],
            disk.files[ino],
        ),
        (forall|i: int|
            0 <= i < ops.len() ==> !(#[trigger] ops[i] matches OpView::CreateHardLink { ino: n, .. }
                && n == ino)) ==> model::entries_flushed(disk, ops, dir).files[ino]
            == disk.files[ino],
    decreases ops.len(),
{
    if ops.len() > 0 {
        lemma_flush_keeps_files(disk, ops.drop_last(), dir, ino);
        if forall|i: int|
            0 <= i < ops.len() ==> !(#[trigger] ops[i] matches OpView::CreateHardLink { ino: n, .. }
                && n == ino) {
            assert forall|i: int| 0 <= i < ops.drop_last().len() implies !(
            #[trigger] ops.drop_last()[i] matches OpView::CreateHardLink { ino: n, .. } && n
                == ino) by {
                assert(ops[i] == ops.drop_last()[i]);
            }
            assert(ops[ops.len() - 1] == ops.last());
        }
    }
}

/// A file survives every crash with all its bytes, and with all else about it but when it last
/// changed, once its data and its directory have been synced, in either order.
pub proof fn law_synced_file_survives(
    fs: FsView,
    path: PathView,
    time: Duration,
    blocks: Seq<u64>,
)
    requires
        model::fs_wf(fs),
        path.len() > 0,
        model::file_exists(fs.live, path),
    ensures
        ({
            let ino = model::number_at(fs.live, path);
            let dir = path.drop_last();
            let after = model::crashed(
                model::dir_synced(model::file_synced(fs, ino), dir, time),
                blocks,
            ).live;
            &&& model::file_exists(after, path)
            &&& is_same_but_change_time(
                model::file_at(after, path),
                model::file_at(fs.live, path),
            )
        }),
        ({
            let ino = model::number_at(fs.live, path);
            let dir = path.drop_last();
            let after = model::crashed(
                model::file_synced(model::dir_synced(fs, dir, time), ino),
                blocks,
            ).live;
            &&& model::file_exists(after, path)
            &&& model::file_at(after, path) == model::file_at(fs.live, path)
        }),
{
    let ino = model::number_at(fs.live, path);
    let dir = path.drop_last();
    assert(fs.live.nodes.contains_key(path));
    assert(fs.live.files.contains_key(ino));
    assert(fs.persisted.files.contains_key(ino));
    assert(path::is_child(path, dir));
    let synced = model::file_synced(fs, ino);
    let first = model::dir_synced(synced, dir, time);
    lemma_synced_is_untouched(fs.pending, ino);
    lemma_still_untouched(model::not_data_ops(fs.pending, ino), dir, ino);
    lemma_flush_keeps_files(synced.persisted, synced.pending, dir, ino);
    law_crash_keeps_durable_files(first, blocks, path);
    let second = model::file_synced(model::dir_synced(fs, dir, time), ino);
    lemma_flush_keeps_files(fs.persisted, fs.pending, dir, ino);
    lemma_synced_is_untouched(model::dir_synced(fs, dir, time).pending, ino);
    law_crash_keeps_durable_files(second, blocks, path);
}

/// A new file whose directory has been synced, but not its data, is there after a crash, and
/// empty, where writes do not tear.
pub proof fn law_unsynced_data_is_lost(
    fs: FsView,
    path: PathView,
    offset: u64,
    data: Seq<u8>,
    time: Duration,
    mode: u32,
    blocks: Seq<u64>,
)
    requires
        model::fs_wf(fs),
        fs.next_ino < u64::MAX,
        path.len() > 0,
        !model::file_exists(fs.live, path),
        fs.config.block_size is None,
    ensures
        ({
            let ino = fs.next_ino;
            let created = model::pushed(fs, OpView::CreateFile { path, ino, time, mode });
            let written = model::pushed(created, OpView::Write { ino, offset, data, time });
            let after = model::crashed(
                model::dir_synced(written, path.drop_last(), time),
                blocks,
            ).live;
            &&& model::file_exists(after, path)
            &&& model::file_at(after, path) == model::fresh_file(time, mode)
        }),
{
    let ino = fs.next_ino;
    let dir = path.drop_last();
    assert(path::is_child(path, dir));
    let created = model::pushed(fs, OpView::CreateFile { path, ino, time, mode });
    let written = model::pushed(created, OpView::Write { ino, offset, data, time });
    assert forall|i: int| 0 <= i < written.pending.len() implies !(
    #[trigger] written.pending[i] matches OpView::CreateHardLink { ino: n, .. } && n == ino) by {
        if i < fs.pending.len() {
            assert(written.pending[i] == fs.pending[i]);
            assert(model::op_known(fs.pending[i], fs.next_ino));
        }
    }
    lemma_flush_keeps_files(written.persisted, written.pending, dir, ino);
}

/// Whether both are directories, or the same file or symbolic link.
pub open spec fn is_same_entry(a: NodeView, b: NodeView) -> bool {
    model::are_dirs(a, b) || a == b
}

/// Whatever is directly in a directory survives a crash once the directory has been synced,
/// and nothing else comes back there.
pub proof fn law_synced_entries_survive(
    fs: FsView,
    dir: PathView,
    time: Duration,
    path: PathView,
    blocks: Seq<u64>,
)
    requires
        model::is_of_dir(path, dir),
    ensures
        ({
            let after = model::crashed(model::dir_synced(fs, dir, time), blocks).live;
            &&& model::anything_at(after, path) == model::anything_at(fs.live, path)
            &&& model::anything_at(fs.live, path) ==> is_same_entry(
                after.nodes[path],
                fs.live.nodes[path],
            )
        }),
{
    law_crash_keeps_only_durable(model::dir_synced(fs, dir, time), blocks);
}

/// What a crash leaves of a pending write is its first bytes, and these are whole blocks
/// or all of it.
pub proof fn law_torn_write_is_prefix(
    disk: DiskView,
    ino: u64,
    offset: u64,
    data: Seq<u8>,
    time: Duration,
    block: u64,
    blocks: nat,
)
    requires
        block > 0,
    ensures
        match model::torn_op(disk, OpView::Write { ino, offset, data, time }, block, blocks) {
            None => blocks == 0 || data.len() == 0 || !model::is_named(disk, ino),
            Some(op) => op matches OpView::Write { ino: n, offset: o, data: left, time: t } && {
                &&& n == ino && o == offset && t == time
                &&& left == data.take(left.len() as int)
                &&& left.len() == data.len() || left.len() == blocks * block
            },
        },
{
    assert(0 <= blocks * block) by (nonlinear_arith);
    if blocks * block < data.len() {
        assert(data.take(blocks * block).len() == blocks * block);
    } else {
        assert(data.take(data.len() as int) =~= data);
    }
}

/// Whether all entries but those at the two paths, and all files, stand as they stood; of the
/// second one only the times may have changed.
pub open spec fn nothing_else_changed(
    before: DiskView,
    after: DiskView,
    path: PathView,
    dir: PathView,
) -> bool {
    &&& forall|p: PathView|
        p != path ==> #[trigger] model::anything_at(after, p) == model::anything_at(before, p)
    &&& forall|p: PathView|
        p != path && p != dir && model::anything_at(before, p) ==> #[trigger] after.nodes[p]
            == before.nodes[p]
    &&& dir != path && model::anything_at(before, dir) ==> is_same_but_times(
        before.nodes[dir],
        after.nodes[dir],
    )
}

/// Whether the entries are the same, but for the times of a directory.
pub open spec fn is_same_but_times(before: NodeView, after: NodeView) -> bool {
    match (before, after) {
        (NodeView::Dir(a), NodeView::Dir(b)) => a.mode == b.mode && a.crtime == b.crtime,
        _ => before == after,
    }
}

/// A directory that was created is there, and nothing else has changed.
pub proof fn law_mkdir_is_seen(fs: FsView, path: PathView, time: Duration, mode: u32)
    requires
        model::mkdir_result(fs, path) is Ok,
    ensures
        ({
            let after = model::pushed(fs, OpView::CreateDir { path, time, mode }).live;
            &&& model::dir_exists(after, path)
            &&& model::dir_mode(after, path) == Some(mode)
            &&& model::dir_times(after, path) == Some((time, time, time))
            &&& nothing_else_changed(fs.live, after, path, model::above(path))
            &&& after.files == fs.live.files
        }),
{
}

/// A file or symbolic link that was removed is gone, and nothing else has changed.
pub proof fn law_unlinked_is_gone(fs: FsView, path: PathView, time: Duration)
    requires
        model::unlink_result(fs, path) is Ok,
    ensures
        ({
            let after = model::pushed(
                model::uncached(fs, path),
                OpView::RemoveFile { path, time },
            ).live;
            &&& !model::anything_at(after, path)
            &&& nothing_else_changed(fs.live, after, path, model::above(path))
            &&& after.files == fs.live.files
        }),
{
}

/// A directory that was removed is gone, and nothing else has changed.
pub proof fn law_rmdir_is_gone(fs: FsView, path: PathView, time: Duration)
    requires
        model::rmdir_result(fs, path) is Ok,
    ensures
        ({
            let after = model::pushed(fs, OpView::RemoveDir { path, time }).live;
            &&& !model::anything_at(after, path)
            &&& nothing_else_changed(fs.live, after, path, model::above(path))
            &&& after.files == fs.live.files
        }),
{
}

/// What was renamed is at its new path with all that stood below it, and no longer at the old
/// one. Everything else stands as it stood, but for the times of the two directories.
pub proof fn law_rename_moves_everything(fs: FsView, from: PathView, to: PathView, time: Duration)
    requires
        model::rename_result(fs, from, to) is Ok,
        from != to,
    ensures
        ({
            let after = model::renamed(fs, from, to, time).live;
            &&& after.files == fs.live.files
            &&& forall|p: PathView|
                model::is_within(p, from) ==> !#[trigger] model::anything_at(after, p)
            &&& forall|rest: PathView|
                model::anything_at(after, #[trigger] (to + rest)) == model::anything_at(
                    fs.live,
                    from + rest,
                )
            &&& forall|rest: PathView|
                model::anything_at(fs.live, from + rest) ==> is_same_but_times(
                    fs.live.nodes[from + rest],
                    after.nodes[#[trigger] (to + rest)],
                )
            &&& forall|p: PathView|
                !model::is_within(p, from) && !model::is_within(p, to) ==> {
                    &&& #[trigger] model::anything_at(after, p) == model::anything_at(fs.live, p)
                    &&& model::anything_at(fs.live, p) ==> is_same_but_times(
                        fs.live.nodes[p],
                        after.nodes[p],
                    )
                }
        }),
{
    let before = fs.live;
    let after = model::renamed(fs, from, to, time).live;
    let moved = model::moved(before.nodes, from, to);
    assert forall|rest: PathView| true implies {
        &&& model::anything_at(after, #[trigger] (to + rest)) == model::anything_at(
            before,
            from + rest,
        )
        &&& model::anything_at(before, from + rest) ==> is_same_but_times(
            before.nodes[from + rest],
            after.nodes[to + rest],
        )
    } by {
        let p = to + rest;
        assert(p.take(to.len() as int) =~= to);
        assert(p.skip(to.len() as int) =~= rest);
        assert(model::stood_at(from, to, p) == from + rest);
        assert(moved.contains_key(p) == before.nodes.contains_key(from + rest));
    }
    if from.len() > 0 {
        assert(!model::is_within(from.drop_last(), from));
    }
    assert forall|p: PathView| model::is_within(p, from) implies !#[trigger] model::anything_at(
        after,
        p,
    ) by {
        if model::is_within(p, to) {
            if from.len() <= to.len() {
                assert(to.take(from.len() as int) =~= p.take(from.len() as int));
            } else {
                assert(from.take(to.len() as int) =~= p.take(to.len() as int));
            }
        }
    }
}

/// A second name of a file leads to the file: both have the same bytes, now and after every
/// write or cut, and the file has one name more.
pub proof fn law_hard_link_shares(
    fs: FsView,
    path: PathView,
    target: PathView,
    time: Duration,
    op: OpView,
)
    requires
        model::fs_wf(fs),
        model::hard_link_result(fs, path, target) is Ok,
        op is Write || op is SetLen,
    ensures
        ({
            let ino = model::number_at(fs.live, target);
            let after = model::pushed(fs, OpView::CreateHardLink { path, ino, time });
            let later = model::pushed(after, op);
            &&& model::file_exists(after.live, path) && model::file_exists(after.live, target)
            &&& model::file_content(after.live, path) == model::file_content(fs.live, target)
            &&& model::file_content(after.live, target) == model::file_content(fs.live, target)
            &&& model::file_content(later.live, path) == model::file_content(later.live, target)
            &&& are_names_of_one(after.live, path, target)
            &&& are_names_of_one(later.live, path, target)
            &&& !model::names_of(fs.live, ino).contains(path)
            &&& model::names_of(after.live, ino) == model::names_of(fs.live, ino).insert(path)
        }),
{
    let ino = model::number_at(fs.live, target);
    let after = model::pushed(fs, OpView::CreateHardLink { path, ino, time });
    assert(fs.live.nodes.contains_key(target));
    assert(fs.live.files.contains_key(ino));
    assert(model::names_of(after.live, ino) =~= model::names_of(fs.live, ino).insert(path));
}

/// Whether the two paths are names of one file.
pub open spec fn are_names_of_one(disk: DiskView, a: PathView, b: PathView) -> bool {
    &&& model::file_exists(disk, a)
    &&& model::file_exists(disk, b)
    &&& model::number_at(disk, a) == model::number_at(disk, b)
}

/// Whatever is written as all of a file under one of its names is what reading all of it under
/// either name gives, and both still are names of one file. Until then reading it under either
/// name gives the same.
pub proof fn law_names_of_one_file_read_alike(
    fs: FsView,
    now: Duration,
    one: Seq<u8>,
    other: Seq<u8>,
    contents: Seq<u8>,
    on_write: Chance,
    on_read: Chance,
    r: Result<Seq<u8>, Error>,
    s: Result<Seq<u8>, Error>,
)
    requires
        model::fs_wf(fs),
        model::has_numbers(fs),
        are_names_of_one(fs.live, path::parse(one), path::parse(other)),
        contents.len() <= isize::MAX,
        !on_read.io_error && !on_read.corrupt,
    ensures
        file::reads(fs, one, on_read, r) && file::reads(fs, other, on_read, s) ==> r == s && r is Ok,
        ({
            let (after, w) = file::replaced(fs, now, one, contents, on_write);
            w is Ok ==> {
                &&& are_names_of_one(after.live, path::parse(one), path::parse(other))
                &&& file::reads(after, one, on_read, r) ==> r == Ok::<Seq<u8>, Error>(contents)
                &&& file::reads(after, other, on_read, s) ==> s == Ok::<Seq<u8>, Error>(contents)
            }
        }),
{
    let a = path::parse(one);
    let b = path::parse(other);
    assert(model::followed(fs.live, a) == Some(a));
    assert(model::followed(fs.live, b) == Some(b));
    let (after, w) = file::replaced(fs, now, one, contents, on_write);
    if w is Ok {
        lemma_replaced(fs, now, one, contents, on_write);
        assert(after.live.nodes[b] == fs.live.nodes[b]);
        assert(model::followed(after.live, a) == Some(a));
        assert(model::followed(after.live, b) == Some(b));
    }
}

/// A new second name of a file reads as the first one does, and whatever is then written as all
/// of the file under either name is what reading it under both gives.
pub proof fn law_hard_link_whole_writes(
    fs: FsView,
    now: Duration,
    original: Seq<u8>,
    link: Seq<u8>,
    contents: Seq<u8>,
    on_write: Chance,
    on_read: Chance,
    r: Result<Seq<u8>, Error>,
    s: Result<Seq<u8>, Error>,
)
    requires
        model::fs_wf(fs),
        model::has_numbers(fs),
        model::hard_link_result(fs, path::parse(link), path::parse(original)) is Ok,
        contents.len() <= isize::MAX,
        !on_read.io_error && !on_read.corrupt,
    ensures
        ({
            let ino = model::number_at(fs.live, path::parse(original));
            let linked = model::pushed(
                fs,
                OpView::CreateHardLink { path: path::parse(link), ino, time: now },
            );
            let (a, w) = file::replaced(linked, now, original, contents, on_write);
            let (b, x) = file::replaced(linked, now, link, contents, on_write);
            &&& file::reads(linked, original, on_read, r) && file::reads(linked, link, on_read, s)
                ==> r == s && r is Ok
            &&& w is Ok && file::reads(a, original, on_read, r) ==> r == Ok::<Seq<u8>, Error>(
                contents,
            )
            &&& w is Ok && file::reads(a, link, on_read, s) ==> s == Ok::<Seq<u8>, Error>(contents)
            &&& x is Ok && file::reads(b, original, on_read, r) ==> r == Ok::<Seq<u8>, Error>(
                contents,
            )
            &&& x is Ok && file::reads(b, link, on_read, s) ==> s == Ok::<Seq<u8>, Error>(contents)
        }),
{
    let ino = model::number_at(fs.live, path::parse(original));
    let op = OpView::CreateHardLink { path: path::parse(link), ino, time: now };
    let linked = model::pushed(fs, op);
    assert(fs.live.nodes.contains_key(path::parse(original)));
    assert(fs.live.files.contains_key(ino));
    state::lemma_pushed_wf(fs, op);
    law_names_of_one_file_read_alike(
        linked,
        now,
        original,
        link,
        contents,
        on_write,
        on_read,
        r,
        s,
    );
    law_names_of_one_file_read_alike(
        linked,
        now,
        link,
        original,
        contents,
        on_write,
        on_read,
        s,
        r,
    );
}

/// A symbolic link that was created reads as its target.
pub proof fn law_symlink_reads_back(fs: FsView, path: PathView, target: Seq<u8>, time: Duration)
    requires
        model::mkdir_result(fs, path) is Ok,
    ensures
        model::read_link(
            model::pushed(fs, OpView::CreateSymlink { path, target, time }).live,
            path,
        ) == Some(target),
{
}

/// A symbolic link that was renamed reads as before.
pub proof fn law_renamed_symlink_reads_back(
    fs: FsView,
    from: PathView,
    to: PathView,
    time: Duration,
)
    requires
        model::rename_result(fs, from, to) is Ok,
        model::symlink_exists(fs.live, from),
        from != to,
    ensures
        model::read_link(model::renamed(fs, from, to, time).live, to) == model::read_link(fs.live, from),
        model::read_link(model::renamed(fs, from, to, time).live, from) is None,
{
    law_rename_moves_everything(fs, from, to, time);
    let after = model::renamed(fs, from, to, time).live;
    assert(to + Seq::<Seq<u8>>::empty() =~= to);
    assert(from + Seq::<Seq<u8>>::empty() =~= from);
    assert(from.take(from.len() as int) =~= from);
    assert(model::anything_at(after, to + Seq::<Seq<u8>>::empty()));
    assert(!model::anything_at(after, from));
}

/// Opening a file so that it is cut to nothing leaves it empty, under all its names.
pub proof fn law_truncating_open_empties(
    fs: FsView,
    options: OpenOptions,
    path: PathView,
    now: Duration,
)
    requires
        model::fs_wf(fs),
        model::has_numbers(fs),
        options.truncate && options.write,
        file::open_error(fs, options, path) is None,
    ensures
        ({
            let after = file::after_open(fs, options, path, now);
            &&& model::file_exists(after.live, path)
            &&& model::file_content(after.live, path).len() == 0
        }),
{
    assert(fs.live.nodes.contains_key(path) ==> model::anything_at(fs.live, path));
    if model::file_exists(fs.live, path) {
        assert(fs.live.files.contains_key(model::number_at(fs.live, path)));
    }
}

/// Bypassing the page cache changes nothing about what a write leaves behind, as long as
/// it is aligned.
pub proof fn law_direct_io_changes_no_state(
    fs: FsView,
    file: File,
    now: Duration,
    data: Seq<u8>,
    addr: usize,
    offset: u64,
    chance: Chance,
)
    requires
        file::aligned(fs.config.direct_io_alignment, addr, data.len(), offset),
    ensures
        file::written(fs, File { direct_io: true, ..file }, now, data, addr, offset, chance)
            == file::written(fs, File { direct_io: false, ..file }, now, data, addr, offset, chance),
{
}

/// A page that was just read or written is found in the cache, unless the read bypasses
/// the cache or chance evicts the page.
pub proof fn law_cached_page_is_found(fs: FsView, path: PathView, offset: u64)
    requires
        fs.pages is Some,
    ensures
        model::read_hits(model::cached(fs, path, offset), path, offset, false, false),
        !model::read_hits(model::cached(fs, path, offset), path, offset, true, false),
        !model::read_hits(model::cached(fs, path, offset), path, offset, false, true),
{
    let page = model::page_of(fs, path, offset);
    let pages = fs.pages.unwrap();
    let max = fs.config.page_cache.unwrap().max_pages as nat;
    let after = cache::with_page(pages, max, page);
    assert(after.last() == page);
    assert(after[after.len() - 1] == page);
    assert(after.contains(page));
}

/// The cache never holds more pages than it may, and no page twice.
pub proof fn law_cache_is_bounded(pages: Seq<(PathView, u64)>, max: nat, page: (PathView, u64))
    requires
        max > 0,
        pages.no_duplicates(),
        pages.len() <= max,
    ensures
        cache::with_page(pages, max, page).len() <= max,
        cache::with_page(pages, max, page).no_duplicates(),
{
    cache::lemma_without(cache::with_room(pages, max), page);
}

/// Permissions that were made read-only are read-only, and those that were made writable
/// are not.
pub proof fn law_readonly_is_kept(mode: u32)
    ensures
        (mode & !0o222u32) & 0o200 == 0,
        (mode | 0o200) & 0o200 != 0,
{
    assert((mode & !0o222u32) & 0o200 == 0) by (bit_vector);
    assert((mode | 0o200) & 0o200 != 0) by (bit_vector);
}

/// The bytes in use are those of the files: a write adds what the file grows by, and one that
/// stays within the file adds nothing.
pub proof fn law_write_uses_its_growth(
    fs: FsView,
    ino: u64,
    offset: u64,
    data: Seq<u8>,
    time: Duration,
)
    requires
        model::fs_wf(fs),
        ino < fs.next_ino,
        model::is_named(fs.live, ino),
        offset + data.len() <= isize::MAX,
    ensures
        model::used_bytes(model::pushed(fs, OpView::Write { ino, offset, data, time }))
            == model::used_bytes(fs) + file::added_by(fs, ino, offset, data.len()),
{
    let after = model::pushed(fs, OpView::Write { ino, offset, data, time });
    assert(fs.live.files.contains_key(ino));
    lemma_used(fs.live, after.live, ino, fs.next_ino as nat);
}

/// The bytes in use change as one file does.
proof fn lemma_used(before: DiskView, after: DiskView, ino: u64, n: nat)
    requires
        before.nodes == after.nodes,
        forall|m: u64| m != ino && m < n ==> #[trigger] after.files[m] == before.files[m],
        model::is_named(before, ino),
        n <= u64::MAX,
    ensures
        model::used_below(after, n) + (if ino < n {
            before.files[ino].content.len()
        } else {
            0
        }) == model::used_below(before, n) + (if ino < n {
            after.files[ino].content.len()
        } else {
            0
        }),
    decreases n,
{
    if n > 0 {
        lemma_used(before, after, ino, (n - 1) as nat);
        let last = (n - 1) as u64;
        assert(model::is_named(before, last) == model::is_named(after, last));
        if last != ino {
            assert(after.files[last] == before.files[last]);
        }
    }
}

/// Paths lead to the same places on disks with the same symbolic links.
proof fn lemma_followed_same(before: DiskView, after: DiskView, path: PathView, links: nat)
    requires
        forall|p: PathView| #[trigger] model::read_link(after, p) == model::read_link(before, p),
    ensures
        model::followed_by(after, path, links) == model::followed_by(before, path, links),
    decreases links,
{
    assert(model::read_link(after, path) == model::read_link(before, path));
    if links > 0 {
        if let Some(target) = model::read_link(before, path) {
            lemma_followed_same(
                before,
                after,
                model::link_leads_to(path, target),
                (links - 1) as nat,
            );
        }
    }
}

/// The symbolic links end somewhere that is none.
proof fn lemma_followed_is_no_link(disk: DiskView, path: PathView, links: nat)
    ensures
        model::followed_by(disk, path, links) matches Some(p) ==> !model::symlink_exists(disk, p),
    decreases links,
{
    if links > 0 {
        if let Some(target) = model::read_link(disk, path) {
            lemma_followed_is_no_link(
                disk,
                model::link_leads_to(path, target),
                (links - 1) as nat,
            );
        }
    }
}

/// What replacing all of a file leaves: a file with the bytes where the path leads, and
/// everything else where it was.
proof fn lemma_replaced(
    fs: FsView,
    now: Duration,
    raw: Seq<u8>,
    contents: Seq<u8>,
    on_write: Chance,
)
    requires
        model::fs_wf(fs),
        model::has_numbers(fs),
        contents.len() <= isize::MAX,
        file::replaced(fs, now, raw, contents, on_write).1 is Ok,
    ensures
        ({
            let path = model::followed(fs.live, path::parse(raw)).unwrap();
            let ino = file::opened_number(fs, path);
            let after = file::replaced(fs, now, raw, contents, on_write).0.live;
            &&& model::followed(fs.live, path::parse(raw)) is Some
            &&& model::followed(after, path::parse(raw)) == Some(path)
            &&& model::file_exists(after, path)
            &&& model::number_at(after, path) == ino
            &&& after.files[ino].content == contents
            &&& forall|p: PathView|
                model::anything_at(fs.live, p) ==> model::anything_at(after, p)
                    && is_same_but_times(fs.live.nodes[p], #[trigger] after.nodes[p])
        }),
{
    let path = model::followed(fs.live, path::parse(raw)).unwrap();
    let options = file::create_options();
    let open = file::after_open(fs, options, path, now);
    let ino = file::opened_number(fs, path);
    let after = file::replaced(fs, now, raw, contents, on_write).0;
    file::lemma_no_flags();
    lemma_followed_is_no_link(fs.live, path::parse(raw), MAX_SYMLINK_FOLLOWS as nat);
    assert(fs.live.nodes.contains_key(path) ==> model::anything_at(fs.live, path));
    if model::file_exists(fs.live, path) {
        assert(fs.live.files.contains_key(ino));
    }
    assert(open.live.files.contains_key(ino));
    assert(open.live.files[ino].content =~= Seq::empty());
    assert(open.handles[fs.next_fd].ino == ino);
    assert(after.live.nodes == open.live.nodes);
    assert(model::overwritten(Seq::empty(), 0, contents) =~= contents);
    assert(after.live.files[ino].content =~= contents);
    assert forall|p: PathView| #[trigger] model::read_link(after.live, p) == model::read_link(
        fs.live,
        p,
    ) by {
        if p == path {
            assert(!model::symlink_exists(fs.live, path));
        }
    }
    lemma_followed_same(fs.live, after.live, path::parse(raw), MAX_SYMLINK_FOLLOWS as nat);
    assert(model::file_exists(after.live, path));
}

/// Bytes that were written as all of a file are what reading all of it gives, whatever the file
/// held before, unless the disk fails or corrupts them. Reading leaves what programs see as it
/// is.
pub proof fn law_whole_write_reads_back(
    fs: FsView,
    now: Duration,
    raw: Seq<u8>,
    contents: Seq<u8>,
    on_write: Chance,
    on_read: Chance,
    r: Result<Seq<u8>, Error>,
)
    requires
        model::fs_wf(fs),
        model::has_numbers(fs),
        contents.len() <= isize::MAX,
        file::replaced(fs, now, raw, contents, on_write).1 is Ok,
        file::reads(file::replaced(fs, now, raw, contents, on_write).0, raw, on_read, r),
        !on_read.io_error && !on_read.corrupt,
    ensures
        r == Ok::<Seq<u8>, Error>(contents),
        ({
            let after = file::replaced(fs, now, raw, contents, on_write).0;
            file::after_read(after, raw).live == after.live
        }),
{
    lemma_replaced(fs, now, raw, contents, on_write);
}

/// Whether the path and all above it are directories.
pub open spec fn is_dir_path(disk: DiskView, path: PathView) -> bool {
    forall|n: int| 0 <= n <= path.len() ==> #[trigger] model::dir_exists(disk, path.take(n))
}

/// Whether everything that stood still stands, but for the times of directories, and what is
/// new stands at the path or above it.
pub open spec fn only_dirs_above_are_new(before: DiskView, after: DiskView, path: PathView) -> bool {
    &&& after.files == before.files
    &&& forall|p: PathView| #[trigger]
        model::anything_at(before, p) ==> model::anything_at(after, p) && is_same_but_times(
            before.nodes[p],
            after.nodes[p],
        )
    &&& forall|p: PathView| #[trigger]
        model::anything_at(after, p) ==> model::anything_at(before, p) || model::is_within(path, p)
}

/// Creating a directory with those above it leaves all of them there and everything else as it
/// was, and doing so once more changes nothing.
pub proof fn law_create_dir_all(
    fs: FsView,
    path: PathView,
    time: Duration,
    mode: u32,
    later: Duration,
)
    ensures
        ({
            let (after, r) = std_fs::ensured_dirs(fs, path, time, mode);
            &&& only_dirs_above_are_new(fs.live, after.live, path)
            &&& r is Ok ==> is_dir_path(after.live, path)
            &&& r is Ok ==> std_fs::ensured_dirs(after, path, later, mode) == (
                after,
                Ok::<(), Cause>(()),
            )
        }),
    decreases path.len(),
{
    let (after, r) = std_fs::ensured_dirs(fs, path, time, mode);
    assert(path.take(path.len() as int) =~= path);
    if path.len() > 0 {
        let dir = path.drop_last();
        law_create_dir_all(fs, dir, time, mode, later);
        let above = std_fs::ensured_dirs(fs, dir, time, mode).0;
        assert forall|p: PathView| model::is_within(dir, p) implies model::is_within(path, p) by {
            assert(path.take(p.len() as int) =~= dir.take(p.len() as int));
        }
        if std_fs::ensured_dirs(fs, dir, time, mode).1 is Ok {
            lemma_ensured_dir(above, path, time, mode);
        }
        assert forall|p: PathView| #[trigger] model::anything_at(fs.live, p) implies
            model::anything_at(after.live, p) && is_same_but_times(
            fs.live.nodes[p],
            after.live.nodes[p],
        ) by {
            assert(model::anything_at(above.live, p));
        }
        assert forall|p: PathView| #[trigger] model::anything_at(after.live, p) implies
            model::anything_at(fs.live, p) || model::is_within(path, p) by {
            if model::anything_at(above.live, p) {
                assert(model::anything_at(fs.live, p) || model::is_within(dir, p));
            }
        }
        if r is Ok {
            assert forall|n: int| 0 <= n <= path.len() implies #[trigger] model::dir_exists(
                after.live,
                path.take(n),
            ) by {
                if n < path.len() {
                    assert(path.take(n) =~= dir.take(n));
                    assert(model::dir_exists(above.live, dir.take(n)));
                    assert(model::anything_at(above.live, dir.take(n)));
                }
            }
            lemma_dirs_stay(after, path, later, mode);
        }
    } else {
        lemma_ensured_dir(fs, path, time, mode);
        if r is Ok {
            assert forall|n: int| 0 <= n <= path.len() implies #[trigger] model::dir_exists(
                after.live,
                path.take(n),
            ) by {
                assert(path.take(n) =~= path);
            }
        }
    }
}

/// Creating a directory unless it is there leaves it there and everything else as it was.
proof fn lemma_ensured_dir(fs: FsView, path: PathView, time: Duration, mode: u32)
    ensures
        ({
            let (after, r) = std_fs::ensured_dir(fs, path, time, mode);
            &&& only_dirs_above_are_new(fs.live, after.live, path)
            &&& r is Ok ==> model::dir_exists(after.live, path)
        }),
{
    assert(path.take(path.len() as int) =~= path);
    assert(model::is_within(path, path));
}

/// Where all the directories are there, creating them changes nothing.
proof fn lemma_dirs_stay(fs: FsView, path: PathView, time: Duration, mode: u32)
    requires
        is_dir_path(fs.live, path),
    ensures
        std_fs::ensured_dirs(fs, path, time, mode) == (fs, Ok::<(), Cause>(())),
    decreases path.len(),
{
    assert(path.take(path.len() as int) =~= path);
    assert(model::dir_exists(fs.live, path.take(path.len() as int)));
    if path.len() > 0 {
        let dir = path.drop_last();
        assert forall|n: int| 0 <= n <= dir.len() implies #[trigger] model::dir_exists(
            fs.live,
            dir.take(n),
        ) by {
            assert(dir.take(n) =~= path.take(n));
            assert(model::dir_exists(fs.live, path.take(n)));
        }
        lemma_dirs_stay(fs, dir, time, mode);
    }
}

/// Whether the path leads from the root through directories alone, without dots.
pub open spec fn is_direct(disk: DiskView, path: PathView) -> bool {
    &&& forall|n: int|
        0 <= n < path.len() ==> #[trigger] model::dir_exists(disk, path.take(n)) && !path::is_dotdot(
            path[n],
        ) && path::is_name(path[n])
    &&& path.len() > 0 ==> !model::symlink_exists(disk, path)
}

proof fn lemma_walk_is_direct(
    disk: DiskView,
    place: PathView,
    names: PathView,
    turns: Seq<Turn>,
    links: nat,
)
    requires
        is_direct(disk, place),
        path::all_names(names),
    ensures
        tree::walked(disk, place, names, turns, links) matches Ok(p) ==> is_direct(disk, p),
    decreases links, names.len(),
{
    if names.len() > 0 && model::dir_exists(disk, place) {
        let rest = names.skip(1);
        let open = tree::open_turns(turns, names.len());
        let here = place.push(names[0]);
        assert forall|i: int| 0 <= i < rest.len() implies path::is_name(#[trigger] rest[i]) by {
            assert(path::is_name(names[i + 1]));
        }
        assert(path::is_name(names[0]));
        if path::is_dotdot(names[0]) {
            let above = model::above(place);
            assert forall|n: int| 0 <= n < above.len() implies #[trigger] model::dir_exists(
                disk,
                above.take(n),
            ) && !path::is_dotdot(above[n]) && path::is_name(above[n]) by {
                assert(above.take(n) =~= place.take(n));
                assert(model::dir_exists(disk, place.take(n)));
            }
            if above.len() > 0 {
                assert(place.take(place.len() - 1) =~= above);
                assert(model::dir_exists(disk, place.take(place.len() - 1)));
            }
            lemma_walk_is_direct(disk, above, rest, open, links);
        } else {
            match model::read_link(disk, here) {
                None => {
                    assert forall|n: int| 0 <= n < here.len() implies #[trigger] model::dir_exists(
                        disk,
                        here.take(n),
                    ) && !path::is_dotdot(here[n]) && path::is_name(here[n]) by {
                        if n < place.len() {
                            assert(here.take(n) =~= place.take(n));
                            assert(model::dir_exists(disk, place.take(n)));
                        } else {
                            assert(here.take(n) =~= place);
                        }
                    }
                    lemma_walk_is_direct(disk, here, rest, open, links);
                },
                Some(target) => {
                    if links > 0 {
                        path::law_parse_is_stable(target);
                        let next = path::parse(target) + rest;
                        assert forall|i: int| 0 <= i < next.len() implies path::is_name(
                            #[trigger] next[i],
                        ) by {
                            if i >= path::parse(target).len() {
                                assert(path::is_name(rest[i - path::parse(target).len()]));
                            }
                        }
                        lemma_walk_is_direct(
                            disk,
                            if path::is_absolute(target) {
                                Seq::empty()
                            } else {
                                place
                            },
                            path::parse(target) + rest,
                            open.push((here, rest.len())),
                            (links - 1) as nat,
                        );
                    }
                },
            }
        }
    }
}

proof fn lemma_direct_walk(disk: DiskView, path: PathView, n: nat, links: nat)
    requires
        is_direct(disk, path),
        model::anything_at(disk, path),
        n <= path.len(),
    ensures
        tree::walked(disk, path.take(n as int), path.skip(n as int), Seq::empty(), links) == Ok::<
            PathView,
            Error,
        >(path),
    decreases path.len() - n,
{
    if n == path.len() {
        assert(path.take(n as int) =~= path);
    } else {
        let names = path.skip(n as int);
        assert(model::dir_exists(disk, path.take(n as int)));
        assert(names[0] == path[n as int]);
        assert(names.skip(1) =~= path.skip((n + 1) as int));
        assert(path.take(n as int).push(names[0]) =~= path.take((n + 1) as int));
        if n + 1 < path.len() {
            assert(model::dir_exists(disk, path.take((n + 1) as int)));
        } else {
            assert(path.take((n + 1) as int) =~= path);
        }
        lemma_direct_walk(disk, path, n + 1, links);
    }
}

/// A file or directory stands at the canonical path of anything. The path is absolute, leads
/// there through directories alone, without dots or symbolic links, and is its own canonical
/// path.
pub proof fn law_canonical_path(disk: DiskView, raw: Seq<u8>)
    ensures
        tree::canonical(disk, path::parse(raw)) matches Ok(p) ==> {
            &&& model::file_exists(disk, p) || model::dir_exists(disk, p)
            &&& forall|n: int|
                0 <= n < p.len() ==> #[trigger] model::dir_exists(disk, p.take(n))
            &&& forall|n: int|
                0 <= n <= p.len() ==> !#[trigger] model::symlink_exists(disk, p.take(n))
            &&& forall|n: int|
                0 <= n < p.len() ==> !path::is_idle(#[trigger] p[n]) && !path::is_dotdot(p[n])
            &&& path::is_absolute(path::render(p))
            &&& tree::canonical(disk, path::parse(path::render(p))) == Ok::<PathView, Error>(p)
        },
{
    let names = path::parse(raw);
    let links = MAX_SYMLINK_FOLLOWS as nat;
    path::law_parse_is_stable(raw);
    lemma_walk_is_direct(disk, Seq::empty(), names, Seq::empty(), links);
    if let Ok(p) = tree::canonical(disk, names) {
        lemma_direct_walk(disk, p, 0, links);
        assert(p.take(0) =~= Seq::empty());
        assert(p.skip(0) =~= p);
        assert forall|n: int| 0 <= n < p.len() implies path::is_name(#[trigger] p[n]) by {
            assert(model::dir_exists(disk, p.take(n)));
        }
        assert forall|n: int| 0 <= n < p.len() implies !path::is_idle(#[trigger] p[n])
            && !path::is_dotdot(p[n]) by {
            assert(model::dir_exists(disk, p.take(n)));
        }
        assert forall|n: int| 0 <= n <= p.len() implies !#[trigger] model::symlink_exists(
            disk,
            p.take(n),
        ) by {
            if n < p.len() {
                assert(model::dir_exists(disk, p.take(n)));
            } else {
                assert(p.take(n) =~= p);
            }
        }
        path::law_text_reads_back(p);
    }
}

/// Whether the paths are those of symbolic links that lead only to one another.
pub open spec fn is_closed(disk: DiskView, paths: Set<PathView>) -> bool {
    forall|p: PathView| #[trigger]
        paths.contains(p) ==> (model::read_link(disk, p) matches Some(target) && paths.contains(
            model::link_leads_to(p, target),
        ))
}

/// Symbolic links that lead only to one another lead nowhere.
pub proof fn law_link_cycle_leads_nowhere(
    disk: DiskView,
    paths: Set<PathView>,
    path: PathView,
    links: nat,
)
    requires
        is_closed(disk, paths),
        paths.contains(path),
    ensures
        model::followed_by(disk, path, links) is None,
    decreases links,
{
    if links > 0 {
        if let Some(target) = model::read_link(disk, path) {
            law_link_cycle_leads_nowhere(
                disk,
                paths,
                model::link_leads_to(path, target),
                (links - 1) as nat,
            );
        }
    }
}

/// Whether the paths are those of symbolic links that lead only to one another from the root,
/// through no other link.
pub open spec fn is_ring(disk: DiskView, paths: Set<PathView>) -> bool {
    forall|p: PathView| #[trigger]
        paths.contains(p) ==> {
            &&& p.len() > 0
            &&& model::read_link(disk, p) matches Some(target) && path::is_absolute(target)
                && paths.contains(path::parse(target))
            &&& forall|n: int| 0 <= n < p.len() ==> !path::is_dotdot(#[trigger] p[n])
            &&& forall|n: int|
                0 <= n < p.len() ==> !model::symlink_exists(disk, #[trigger] p.take(n))
        }
}

proof fn lemma_ring(
    disk: DiskView,
    paths: Set<PathView>,
    path: PathView,
    n: nat,
    rest: PathView,
    turns: Seq<Turn>,
    links: nat,
)
    requires
        is_ring(disk, paths),
        paths.contains(path),
        n < path.len(),
    ensures
        tree::walked(disk, path.take(n as int), path.skip(n as int) + rest, turns, links) is Err,
    decreases links, path.len() - n,
{
    let place = path.take(n as int);
    let names = path.skip(n as int) + rest;
    if model::dir_exists(disk, place) {
        let open = tree::open_turns(turns, names.len());
        let here = place.push(names[0]);
        assert(names[0] == path[n as int]);
        assert(here =~= path.take((n + 1) as int));
        assert(!path::is_dotdot(path[n as int]));
        if n + 1 < path.len() {
            assert(!model::symlink_exists(disk, path.take((n + 1) as int)));
            assert(names.skip(1) =~= path.skip((n + 1) as int) + rest);
            lemma_ring(disk, paths, path, n + 1, rest, open, links);
        } else {
            assert(here =~= path);
            assert(names.skip(1) =~= rest);
            let target = model::read_link(disk, path).unwrap();
            let next = path::parse(target);
            if links > 0 {
                assert(paths.contains(next));
                assert(next.take(0) =~= Seq::empty());
                assert(next.skip(0) =~= next);
                lemma_ring(
                    disk,
                    paths,
                    next,
                    0,
                    rest,
                    open.push((here, rest.len())),
                    (links - 1) as nat,
                );
            }
        }
    }
}

/// Symbolic links that lead only to one another have no canonical path.
pub proof fn law_link_cycle_has_no_canonical_path(
    disk: DiskView,
    paths: Set<PathView>,
    path: PathView,
)
    requires
        is_ring(disk, paths),
        paths.contains(path),
    ensures
        tree::canonical(disk, path) is Err,
{
    assert(path.take(0) =~= Seq::empty());
    assert(path.skip(0) + Seq::empty() =~= path);
    lemma_ring(
        disk,
        paths,
        path,
        0,
        Seq::empty(),
        Seq::empty(),
        MAX_SYMLINK_FOLLOWS as nat,
    );
}

} // verus!
