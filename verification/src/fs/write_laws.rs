//! Laws of writing: what a write changes, what the capacity of the disk allows, what becomes
//! durable, and what a crash leaves.
use crate::error::{Cause, Error, ErrorKind};
use crate::fs::file;
use crate::fs::file::File;
use crate::fs::model;
use crate::fs::model::{DiskView, FsView, NodeView, OpView};
use crate::fs::std_fs::Chance;
use crate::path::PathView;
use crate::time::Duration;
use vstd::prelude::*;

verus! {

/// The bytes in use are the bytes of all files that have a name, each counted once.
pub proof fn law_used_bytes_are_those_of_named_files(fs: FsView)
    ensures
        model::used_bytes(fs) == Seq::new(
            fs.next_ino as nat,
            |n: int|
                if exists|p: PathView| #[trigger]
                    fs.live.nodes.contains_key(p) && fs.live.nodes[p] == NodeView::File(n as u64) {
                    fs.live.files[n as u64].content.len() as int
                } else {
                    0
                },
        ).fold_left(0int, |sum: int, len: int| sum + len),
{
    lemma_used(fs.live, fs.next_ino as nat, fs.next_ino as nat);
    assert(sizes(fs.live, fs.next_ino as nat).take(fs.next_ino as int) =~= sizes(
        fs.live,
        fs.next_ino as nat,
    ));
}

spec fn sizes(disk: DiskView, n: nat) -> Seq<int> {
    Seq::new(
        n,
        |n: int|
            if exists|p: PathView| #[trigger]
                disk.nodes.contains_key(p) && disk.nodes[p] == NodeView::File(n as u64) {
                disk.files[n as u64].content.len() as int
            } else {
                0
            },
    )
}

proof fn lemma_used(disk: DiskView, n: nat, m: nat)
    requires
        m <= n,
    ensures
        model::used_below(disk, m) == sizes(disk, n).take(m as int).fold_left(
            0int,
            |sum: int, len: int| sum + len,
        ),
    decreases m,
{
    if m > 0 {
        lemma_used(disk, n, (m - 1) as nat);
        assert(sizes(disk, n).take(m as int).drop_last() =~= sizes(disk, n).take(m - 1));
    }
}

/// The capacity bounds the disk. A write that nothing else stands in the way of fails for want
/// of space just where the bytes in use and what the file would grow by are more than the
/// capacity; it then changes nothing. After one that made a file grow no more bytes are in use
/// than the disk has room for. The largest number stands for a disk without a limit.
pub proof fn law_capacity_bounds_the_disk(
    fs: FsView,
    file: File,
    now: Duration,
    data: Seq<u8>,
    addr: usize,
    offset: u64,
    chance: Chance,
)
    requires
        model::fs_wf(fs),
        offset + data.len() <= isize::MAX,
        fs.handles.contains_key(file.fd),
        file.writable,
        !file.direct_io,
        !chance.io_error,
    ensures
        ({
            let (after, r) = file::written(fs, file, now, data, addr, offset, chance);
            let before = fs.live.files[fs.handles[file.fd].ino].content.len();
            let growth = if offset + data.len() > before {
                offset + data.len() - before
            } else {
                0
            };
            let is_full = match fs.config.capacity {
                Some(capacity) => capacity != u64::MAX && growth > 0 && model::used_bytes(fs)
                    + growth > capacity,
                None => false,
            };
            &&& r == (if is_full {
                Err::<usize, Error>(Error { kind: ErrorKind::Other, cause: Cause::NoSpace })
            } else {
                Ok(data.len() as usize)
            })
            &&& r is Err ==> after == fs
            &&& r is Ok && growth > 0 ==> (fs.config.capacity matches Some(capacity)
                ==> capacity == u64::MAX || model::used_bytes(after) <= capacity)
        }),
{
    let ino = fs.handles[file.fd].ino;
    let (after, r) = file::written(fs, file, now, data, addr, offset, chance);
    assert(fs.live.files.contains_key(ino));
    assert(after.live.nodes == fs.live.nodes);
    assert(after.next_ino == fs.next_ino);
    assert forall|n: u64| n != ino implies #[trigger] after.live.files[n] == fs.live.files[n] by {}
    lemma_used_after(fs.live, after.live, ino, fs.next_ino as nat);
    let before = fs.live.files[ino].content.len();
    if r is Ok {
        assert(after.live.files[ino].content.len() <= if offset + data.len() > before {
            (offset + data.len()) as nat
        } else {
            before
        });
    }
}

proof fn lemma_used_after(before: DiskView, after: DiskView, ino: u64, n: nat)
    requires
        before.nodes == after.nodes,
        n <= u64::MAX,
        forall|m: u64| m != ino ==> #[trigger] after.files[m] == before.files[m],
        after.files[ino].content.len() >= before.files[ino].content.len(),
    ensures
        model::used_below(after, n) <= model::used_below(before, n) + (if ino < n {
            after.files[ino].content.len() - before.files[ino].content.len()
        } else {
            0
        }),
    decreases n,
{
    if n > 0 {
        lemma_used_after(before, after, ino, (n - 1) as nat);
        let last = (n - 1) as u64;
        assert(model::is_named(before, last) == model::is_named(after, last));
        assert(last != ino ==> after.files[last] == before.files[last]);
    }
}

/// A write fails in this order for want of permission, of alignment where it bypasses the page
/// cache, by chance, for want of an open file, and for want of space. A write that fails changes
/// nothing.
pub proof fn law_write_fails_for_a_reason(
    fs: FsView,
    file: File,
    now: Duration,
    data: Seq<u8>,
    addr: usize,
    offset: u64,
    chance: Chance,
)
    requires
        model::fs_wf(fs),
        offset + data.len() <= isize::MAX,
    ensures
        ({
            let (after, r) = file::written(fs, file, now, data, addr, offset, chance);
            let step = fs.config.direct_io_alignment;
            let is_aligned = addr % step == 0 && data.len() % (step as nat) == 0 && offset as int
                % (step as int) == 0;
            &&& r is Err ==> after == fs
            &&& r is Ok ==> r->Ok_0 == data.len()
            &&& (r == Err::<usize, Error>(
                Error { kind: ErrorKind::PermissionDenied, cause: Cause::NotWritable },
            )) == !file.writable
            &&& (r == Err::<usize, Error>(
                Error { kind: ErrorKind::InvalidInput, cause: Cause::Misaligned },
            )) == (file.writable && file.direct_io && !is_aligned)
            &&& (r == Err::<usize, Error>(Error { kind: ErrorKind::Other, cause: Cause::Io })) == (
            file.writable && (file.direct_io ==> is_aligned) && chance.io_error)
            &&& (r == Err::<usize, Error>(
                Error { kind: ErrorKind::NotFound, cause: Cause::HandleNotFound },
            )) == (file.writable && (file.direct_io ==> is_aligned) && !chance.io_error
                && !fs.handles.contains_key(file.fd))
            &&& r is Ok ==> file.writable && (file.direct_io ==> is_aligned) && !chance.io_error
                && fs.handles.contains_key(file.fd)
        }),
{
}

/// A write that succeeds puts its bytes at their place in the open file and nowhere else: the
/// file is as long as before, or ends where the bytes end; a gap before them is filled with
/// zeros; and the file was modified now. No name and no other file changes. The write is the
/// last pending operation, or where chance syncs the file all of it is durable and nothing that
/// changes its bytes is pending. A write of no bytes changes nothing but by such a sync.
pub proof fn law_write_changes_its_bytes(
    fs: FsView,
    file: File,
    now: Duration,
    data: Seq<u8>,
    addr: usize,
    offset: u64,
    chance: Chance,
    i: int,
    other: u64,
)
    requires
        model::fs_wf(fs),
        offset + data.len() <= isize::MAX,
        file::written(fs, file, now, data, addr, offset, chance).1 is Ok,
    ensures
        ({
            let after = file::written(fs, file, now, data, addr, offset, chance).0;
            let ino = fs.handles[file.fd].ino;
            let (x, y) = (fs.live.files[ino], after.live.files[ino]);
            let op = OpView::Write { ino, offset, data, time: now };
            let ops = if data.len() == 0 {
                fs.pending
            } else {
                fs.pending.push(op)
            };
            &&& data.len() == 0 ==> y == x
            &&& data.len() > 0 ==> {
                &&& y.content.len() == if offset + data.len() > x.content.len() {
                    (offset + data.len()) as nat
                } else {
                    x.content.len()
                }
                &&& 0 <= i < y.content.len() ==> y.content[i] == (if offset <= i < offset
                    + data.len() {
                    data[i - offset]
                } else if i < x.content.len() {
                    x.content[i]
                } else {
                    0u8
                })
                &&& y.mtime == now && y.ctime == now && y.crtime == x.crtime && y.mode == x.mode
            }
            &&& after.live.nodes == fs.live.nodes && after.persisted.nodes == fs.persisted.nodes
            &&& other != ino ==> after.live.files[other] == fs.live.files[other]
                && after.persisted.files[other] == fs.persisted.files[other]
            &&& after.live.files.dom() == fs.live.files.dom()
            &&& (after.handles, after.next_fd, after.next_ino, after.config, after.pages) == (
                fs.handles,
                fs.next_fd,
                fs.next_ino,
                fs.config,
                fs.pages,
            )
            &&& chance.sync ==> after.persisted.files[ino] == y && after.pending == ops.filter(
                |op: OpView|
                    !(op matches OpView::Write { ino: n, .. } && n == ino) && !(
                    op matches OpView::SetLen { ino: n, .. } && n == ino),
            )
            &&& !chance.sync ==> after.persisted == fs.persisted && after.pending == ops
        }),
{
    let ino = fs.handles[file.fd].ino;
    assert(fs.live.files.contains_key(ino));
    assert(fs.persisted.files.contains_key(ino));
    let after = file::written(fs, file, now, data, addr, offset, chance).0;
    assert(after.live.files.dom() =~= fs.live.files.dom());
    assert((|op: OpView| !model::is_data_of(op, ino)) =~= |op: OpView|
        !(op matches OpView::Write { ino: n, .. } && n == ino) && !(
        op matches OpView::SetLen { ino: n, .. } && n == ino));
}

/// What a crash leaves of the bytes when so many blocks of the operation got through: the first
/// bytes of a write to the file are written over them, and anything else leaves nothing.
spec fn torn_over(ino: u64, block: u64) -> spec_fn(Seq<u8>, (OpView, u64)) -> Seq<u8> {
    |content: Seq<u8>, x: (OpView, u64)|
        match x.0 {
            OpView::Write { ino: n, offset, data, .. } => {
                let got = if x.1 * block < data.len() {
                    x.1 * block
                } else {
                    data.len() as int
                };
                if n != ino || got == 0 {
                    content
                } else {
                    Seq::new(
                        if offset + got > content.len() {
                            (offset + got) as nat
                        } else {
                            content.len()
                        },
                        |i: int|
                            if offset <= i < offset + got {
                                data[i - offset]
                            } else if i < content.len() {
                                content[i]
                            } else {
                                0u8
                            },
                    )
                }
            },
            _ => content,
        }
}

spec fn torn_list(ops: Seq<OpView>, blocks: Seq<u64>) -> Seq<(OpView, u64)> {
    Seq::new(ops.len(), |i: int| (ops[i], blocks[i]))
}

/// Where writes tear, a crash leaves of every file that has a durable name its durable bytes,
/// over which for each pending write to it, in order, the bytes of as many blocks as got through
/// are written at their place. Files without a durable name are left as they are durable, and so
/// are all names.
pub proof fn law_crash_leaves_what_got_through(fs: FsView, blocks: Seq<u64>, ino: u64, block: u64)
    requires
        fs.config.block_size == Some(block),
        block > 0,
        blocks.len() == fs.pending.len(),
        fs.persisted.files.contains_key(ino),
    ensures
        ({
            let after = model::crashed(fs, blocks);
            let has_name = exists|p: PathView| #[trigger]
                fs.persisted.nodes.contains_key(p) && fs.persisted.nodes[p] == NodeView::File(ino);
            let (x, y) = (fs.persisted.files[ino], after.live.files[ino]);
            &&& after.live.nodes == fs.persisted.nodes
            &&& after.persisted == after.live
            &&& after.pending == Seq::<OpView>::empty()
            &&& !has_name ==> y == x
            &&& y.crtime == x.crtime && y.mode == x.mode
            &&& has_name ==> y.content == Seq::new(
                fs.pending.len(),
                |i: int| (fs.pending[i], blocks[i]),
            ).fold_left(
                x.content,
                |content: Seq<u8>, x: (OpView, u64)|
                    match x.0 {
                        OpView::Write { ino: n, offset, data, .. } => {
                            let got = if x.1 * block < data.len() {
                                x.1 * block
                            } else {
                                data.len() as int
                            };
                            if n != ino || got == 0 {
                                content
                            } else {
                                Seq::new(
                                    if offset + got > content.len() {
                                        (offset + got) as nat
                                    } else {
                                        content.len()
                                    },
                                    |i: int|
                                        if offset <= i < offset + got {
                                            data[i - offset]
                                        } else if i < content.len() {
                                            content[i]
                                        } else {
                                            0u8
                                        },
                                )
                            }
                        },
                        _ => content,
                    },
            )
        }),
{
    lemma_torn(fs.persisted, fs.pending, block, blocks, ino);
    let list = torn_list(fs.pending, blocks);
    assert(list =~= Seq::new(fs.pending.len(), |i: int| (fs.pending[i], blocks[i])));
    let f = |content: Seq<u8>, x: (OpView, u64)|
        match x.0 {
            OpView::Write { ino: n, offset, data, .. } => {
                let got = if x.1 * block < data.len() {
                    x.1 * block
                } else {
                    data.len() as int
                };
                if n != ino || got == 0 {
                    content
                } else {
                    Seq::new(
                        if offset + got > content.len() {
                            (offset + got) as nat
                        } else {
                            content.len()
                        },
                        |i: int|
                            if offset <= i < offset + got {
                                data[i - offset]
                            } else if i < content.len() {
                                content[i]
                            } else {
                                0u8
                            },
                    )
                }
            },
            _ => content,
        };
    assert(f =~~= torn_over(ino, block));
}

proof fn lemma_torn(disk: DiskView, ops: Seq<OpView>, block: u64, blocks: Seq<u64>, ino: u64)
    requires
        block > 0,
        blocks.len() >= ops.len(),
        disk.files.contains_key(ino),
    ensures
        ({
            let after = model::torn(disk, ops, block, blocks);
            let (x, y) = (disk.files[ino], after.files[ino]);
            &&& after.nodes == disk.nodes
            &&& after.files.dom() == disk.files.dom()
            &&& y.crtime == x.crtime && y.mode == x.mode
            &&& !model::is_named(disk, ino) ==> y == x
            &&& model::is_named(disk, ino) ==> y.content == torn_list(ops, blocks).fold_left(
                x.content,
                torn_over(ino, block),
            )
        }),
    decreases ops.len(),
{
    if ops.len() > 0 {
        let init = ops.drop_last();
        lemma_torn(disk, init, block, blocks, ino);
        let before = model::torn(disk, init, block, blocks);
        assert(torn_list(ops, blocks).drop_last() =~= torn_list(init, blocks));
        assert(model::torn(disk, ops, block, blocks).files.dom() =~= disk.files.dom());
        assert(model::is_named(before, ino) == model::is_named(disk, ino));
        let n = blocks[ops.len() - 1];
        if let OpView::Write { ino: m, offset, data, .. } = ops.last() {
            assert(model::is_named(before, m) == model::is_named(disk, m));
            assert(n > 0 ==> n * block > 0) by (nonlinear_arith)
                requires
                    block > 0,
            ;
            assert(n == 0 ==> n * block == 0) by (nonlinear_arith);
            if m == ino && model::is_named(disk, ino) {
                let c = before.files[ino].content;
                let got = if n * block < data.len() {
                    n * block
                } else {
                    data.len() as int
                };
                assert(model::overwritten(c, offset as nat, data.take(got)) =~= Seq::new(
                    if offset + got > c.len() {
                        (offset + got) as nat
                    } else {
                        c.len()
                    },
                    |i: int|
                        if offset <= i < offset + got {
                            data[i - offset]
                        } else if i < c.len() {
                            c[i]
                        } else {
                            0u8
                        },
                ));
            }
        }
    } else {
        assert(torn_list(ops, blocks) =~= Seq::empty());
    }
}

/// One more pending write leaves in a crash what the others leave, with the bytes of as many of
/// its blocks as got through written over it, where the file has a durable name. This holds
/// however many operations are pending.
pub proof fn law_crash_tears_each_write(
    fs: FsView,
    blocks: Seq<u64>,
    block: u64,
    ino: u64,
    offset: u64,
    data: Seq<u8>,
    time: Duration,
    count: u64,
    path: PathView,
    i: int,
)
    requires
        fs.config.block_size == Some(block),
        block > 0,
        blocks.len() == fs.pending.len(),
        fs.persisted.files.contains_key(ino),
        fs.persisted.nodes.contains_key(path),
        fs.persisted.nodes[path] == NodeView::File(ino),
    ensures
        ({
            let more = FsView {
                pending: fs.pending.push(OpView::Write { ino, offset, data, time }),
                ..fs
            };
            let x = model::crashed(fs, blocks).live.files[ino].content;
            let y = model::crashed(more, blocks.push(count)).live.files[ino].content;
            let got = if count * block < data.len() {
                count * block
            } else {
                data.len() as int
            };
            &&& y.len() == if got > 0 && offset + got > x.len() {
                (offset + got) as nat
            } else {
                x.len()
            }
            &&& 0 <= i < y.len() ==> y[i] == (if offset <= i < offset + got {
                data[i - offset]
            } else if i < x.len() {
                x[i]
            } else {
                0u8
            })
        }),
{
    let op = OpView::Write { ino, offset, data, time };
    let more = fs.pending.push(op);
    assert(model::is_named(fs.persisted, ino));
    lemma_torn(fs.persisted, fs.pending, block, blocks, ino);
    lemma_torn(fs.persisted, more, block, blocks.push(count), ino);
    let short = torn_list(fs.pending, blocks);
    let long = torn_list(more, blocks.push(count));
    assert(long.drop_last() =~= short);
    assert(long.last() == (op, count));
}

} // verus!
