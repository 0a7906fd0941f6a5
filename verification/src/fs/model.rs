//! What the filesystem is and what its operations mean.
//!
//! A filesystem has two disks: the one that programs see, on which every operation takes
//! effect at once, and the one that survives a crash. A file has a number, and the entries
//! of a disk are names for such numbers; so a file keeps its bytes when it is renamed, and
//! shares them between its names. Syncing a file makes the second disk have its bytes, syncing
//! a directory makes it have its entries, and a crash replaces the first disk by the second.
use crate::error::Cause;
use crate::fs::cache;
use crate::fs::config::FsConfig;
use crate::path;
use crate::path::PathView;
use crate::time::Duration;
use vstd::prelude::*;

verus! {

/// The permission bits of a file, unless others are asked for.
pub const FILE_MODE: u32 = 0o644;

/// The permission bits of a directory, unless others are asked for.
pub const DIR_MODE: u32 = 0o755;

/// The permission bits of every symbolic link.
pub const SYMLINK_MODE: u32 = 0o777;

/// How many symbolic links may be followed on the way to a path.
pub const MAX_SYMLINK_FOLLOWS: usize = 40;

/// An operation on a disk. Files go by their numbers.
#[verifier::ext_equal]
#[allow(inconsistent_fields)]
pub enum OpView {
    /// A file is created.
    CreateFile { path: PathView, ino: u64, time: Duration, mode: u32 },
    /// A directory is created.
    CreateDir { path: PathView, time: Duration, mode: u32 },
    /// A symbolic link with the given target text is created.
    CreateSymlink { path: PathView, target: Seq<u8>, time: Duration },
    /// A file gets one more name.
    CreateHardLink { path: PathView, ino: u64, time: Duration },
    /// Bytes are written to a file.
    Write { ino: u64, offset: u64, data: Seq<u8>, time: Duration },
    /// A file is cut or extended to a length.
    SetLen { ino: u64, len: u64, time: Duration },
    /// The permission bits of a file or directory are changed.
    SetPermissions { path: PathView, mode: u32, time: Duration },
    /// An entry gets another name, with all that stands below it.
    Rename { from: PathView, to: PathView, time: Duration },
    /// A file or symbolic link is removed.
    RemoveFile { path: PathView, time: Duration },
    /// A directory is removed.
    RemoveDir { path: PathView, time: Duration },
    /// An entry is removed with all that stands below it.
    RemoveTree { path: PathView, time: Duration },
}

/// A file.
#[verifier::ext_equal]
pub struct FileView {
    /// Its bytes.
    pub content: Seq<u8>,
    /// When it was created.
    pub crtime: Duration,
    /// When its bytes last changed.
    pub mtime: Duration,
    /// When anything about it last changed.
    pub ctime: Duration,
    /// Its permission bits.
    pub mode: u32,
}

/// A directory.
#[verifier::ext_equal]
pub struct DirView {
    /// When it was created.
    pub crtime: Duration,
    /// When its entries last changed.
    pub mtime: Duration,
    /// When anything about it last changed.
    pub ctime: Duration,
    /// Its permission bits.
    pub mode: u32,
}

/// A symbolic link.
#[verifier::ext_equal]
pub struct SymlinkView {
    /// The text of the path that it points to.
    pub target: Seq<u8>,
    /// When it was created.
    pub crtime: Duration,
    /// When its target last changed.
    pub mtime: Duration,
    /// When anything about it last changed.
    pub ctime: Duration,
}

/// What stands at a path.
#[verifier::ext_equal]
pub enum NodeView {
    /// A name of the file with the number.
    File(u64),
    /// A directory.
    Dir(DirView),
    /// A symbolic link.
    Symlink(SymlinkView),
}

/// The creation, modification and change times of an entry.
pub type Times = (Duration, Duration, Duration);

/// A disk.
#[verifier::ext_equal]
pub struct DiskView {
    /// What stands at each path at which something does.
    pub nodes: Map<PathView, NodeView>,
    /// The files, by number.
    pub files: Map<u64, FileView>,
}

/// An open file.
#[verifier::ext_equal]
pub struct HandleView {
    /// The number of the file.
    pub ino: u64,
    /// The path that it was opened with.
    pub path: PathView,
}

/// A filesystem.
#[verifier::ext_equal]
pub struct FsView {
    /// What programs see.
    pub live: DiskView,
    /// What survives a crash.
    pub persisted: DiskView,
    /// The operations that are not durable yet, oldest first.
    pub pending: Seq<OpView>,
    /// The open files, by descriptor.
    pub handles: Map<u64, HandleView>,
    /// The descriptor that the next opened file gets.
    pub next_fd: u64,
    /// The number that the next created file gets.
    pub next_ino: u64,
    /// The pages in the page cache, least recently used first, where there is a cache.
    pub pages: Option<Seq<(PathView, u64)>>,
    /// The settings.
    pub config: FsConfig,
}

/// Whether the lengths in the operation fit in memory.
pub open spec fn op_fits(op: OpView) -> bool {
    match op {
        OpView::Write { offset, data, .. } => offset + data.len() <= isize::MAX,
        OpView::SetLen { len, .. } => len <= isize::MAX,
        _ => true,
    }
}

/// Whether every name on the disk is that of a file, and every file fits in memory and has a
/// number that was given out.
pub open spec fn disk_wf(disk: DiskView, next_ino: u64) -> bool {
    &&& forall|p: PathView| #[trigger]
        disk.nodes.contains_key(p) ==> (disk.nodes[p] matches NodeView::File(ino)
            ==> disk.files.contains_key(ino))
    &&& forall|ino: u64| #[trigger] disk.files.contains_key(ino) <==> ino < next_ino
    &&& forall|ino: u64| #[trigger]
        disk.files.contains_key(ino) ==> disk.files[ino].content.len() <= isize::MAX
}

/// Whether the operation speaks only of files with numbers that were given out.
pub open spec fn op_known(op: OpView, next_ino: u64) -> bool {
    match op {
        OpView::CreateFile { ino, .. } => ino < next_ino,
        OpView::CreateHardLink { ino, .. } => ino < next_ino,
        OpView::Write { ino, .. } => ino < next_ino,
        OpView::SetLen { ino, .. } => ino < next_ino,
        _ => true,
    }
}

/// The bytes of the file with the number after the operations, when it had `content` before.
pub open spec fn content_after(content: Seq<u8>, ops: Seq<OpView>, ino: u64) -> Seq<u8>
    decreases ops.len(),
{
    if ops.len() == 0 {
        content
    } else {
        let before = content_after(content, ops.drop_last(), ino);
        match ops.last() {
            OpView::Write { ino: n, offset, data, .. } => if n == ino {
                overwritten(before, offset as nat, data)
            } else {
                before
            },
            OpView::SetLen { ino: n, len, .. } => if n == ino {
                resized(before, len as nat)
            } else {
                before
            },
            _ => before,
        }
    }
}

/// Whether the bytes that programs see in every file are the durable ones with the pending
/// operations carried out.
pub open spec fn contents_agree(fs: FsView) -> bool {
    forall|ino: u64| #[trigger]
        fs.live.files.contains_key(ino) ==> fs.live.files[ino].content == content_after(
            fs.persisted.files[ino].content,
            fs.pending,
            ino,
        )
}

/// Whether both disks are in order, the pending operations and the open files speak of files
/// that there are, every descriptor was given out, and the settings are valid.
pub open spec fn parts_wf(fs: FsView) -> bool {
    &&& disk_wf(fs.live, fs.next_ino)
    &&& disk_wf(fs.persisted, fs.next_ino)
    &&& forall|i: int|
        0 <= i < fs.pending.len() ==> op_fits(#[trigger] fs.pending[i]) && op_known(
            fs.pending[i],
            fs.next_ino,
        )
    &&& forall|fd: u64| #[trigger]
        fs.handles.contains_key(fd) ==> fd < fs.next_fd && fs.handles[fd].ino < fs.next_ino
    &&& fs.config.wf()
    &&& fs.pages is Some == fs.config.page_cache is Some
}

/// Whether the filesystem is one that its operations can lead to: its parts are in order, and
/// the bytes of every file are the durable ones with the pending operations carried out.
pub open spec fn fs_wf(fs: FsView) -> bool {
    parts_wf(fs) && contents_agree(fs)
}

/// Whether a descriptor and a number are left for a further file.
pub open spec fn has_numbers(fs: FsView) -> bool {
    fs.next_fd < u64::MAX && fs.next_ino < u64::MAX
}

/// A new empty file.
pub open spec fn fresh_file(time: Duration, mode: u32) -> FileView {
    FileView { content: seq![], crtime: time, mtime: time, ctime: time, mode }
}

/// A new directory.
pub open spec fn fresh_dir(time: Duration, mode: u32) -> DirView {
    DirView { crtime: time, mtime: time, ctime: time, mode }
}

/// A new symbolic link.
pub open spec fn fresh_symlink(target: Seq<u8>, time: Duration) -> SymlinkView {
    SymlinkView { target, crtime: time, mtime: time, ctime: time }
}

/// The bytes cut to `len` or extended to it by zeros.
pub open spec fn resized(content: Seq<u8>, len: nat) -> Seq<u8> {
    Seq::new(
        len,
        |i: int|
            if i < content.len() {
                content[i]
            } else {
                0u8
            },
    )
}

/// The bytes with `data` written over them at `offset`, extended by zeros if needed.
pub open spec fn overwritten(content: Seq<u8>, offset: nat, data: Seq<u8>) -> Seq<u8> {
    Seq::new(
        if offset + data.len() > content.len() {
            offset + data.len()
        } else {
            content.len()
        },
        |i: int|
            if offset <= i < offset + data.len() {
                data[i - offset]
            } else if i < content.len() {
                content[i]
            } else {
                0u8
            },
    )
}

/// A disk with nothing but the root directory.
pub open spec fn empty_disk() -> DiskView {
    DiskView {
        nodes: Map::empty().insert(
            Seq::empty(),
            NodeView::Dir(fresh_dir(Duration { nanos: 0 }, DIR_MODE)),
        ),
        files: Map::empty(),
    }
}

/// Whether the path is the other one or stands below it.
pub open spec fn is_within(path: PathView, top: PathView) -> bool {
    top.len() <= path.len() && path.take(top.len() as int) == top
}

/// The entries with the directory at `dir`, where there is one, modified at the time.
pub open spec fn stamped(nodes: Map<PathView, NodeView>, dir: PathView, time: Duration) -> Map<
    PathView,
    NodeView,
> {
    if nodes.contains_key(dir) && nodes[dir] is Dir {
        nodes.insert(
            dir,
            NodeView::Dir(DirView { mtime: time, ctime: time, ..nodes[dir]->Dir_0 }),
        )
    } else {
        nodes
    }
}

/// The entries with the directory that holds `path` modified at the time.
pub open spec fn modified(nodes: Map<PathView, NodeView>, path: PathView, time: Duration) -> Map<
    PathView,
    NodeView,
> {
    if path.len() > 0 {
        stamped(nodes, path.drop_last(), time)
    } else {
        nodes
    }
}

/// Where what stands at `path` after the rename stood before it.
pub open spec fn stood_at(from: PathView, to: PathView, path: PathView) -> PathView {
    if is_within(path, to) {
        from + path.skip(to.len() as int)
    } else {
        path
    }
}

/// Whether something stands at `path` after the rename.
pub open spec fn stands_after(
    nodes: Map<PathView, NodeView>,
    from: PathView,
    to: PathView,
    path: PathView,
) -> bool {
    &&& is_within(path, to) || !is_within(path, from)
    &&& nodes.contains_key(stood_at(from, to, path))
}

/// The entries with what stood at `from` and below it moved to `to`. What stood at `to` and
/// below it is replaced.
pub open spec fn moved(nodes: Map<PathView, NodeView>, from: PathView, to: PathView) -> Map<
    PathView,
    NodeView,
> {
    Map::new(
        |p: PathView| stands_after(nodes, from, to, p),
        |p: PathView| nodes[stood_at(from, to, p)],
    )
}

/// The entries without what stands at `top` and below it.
pub open spec fn without_tree(nodes: Map<PathView, NodeView>, top: PathView) -> Map<
    PathView,
    NodeView,
> {
    Map::new(
        |p: PathView| nodes.contains_key(p) && !is_within(p, top),
        |p: PathView| nodes[p],
    )
}

/// The files with one of them changed, where there is one with the number.
pub open spec fn with_file(files: Map<u64, FileView>, ino: u64, file: FileView) -> Map<
    u64,
    FileView,
> {
    if files.contains_key(ino) {
        files.insert(ino, file)
    } else {
        files
    }
}

/// The disk after the operation. What is created where something of its kind stands already
/// leaves that as it is, and what speaks of a file that there is not changes nothing.
pub open spec fn apply(disk: DiskView, op: OpView) -> DiskView {
    let nodes = disk.nodes;
    let files = disk.files;
    match op {
        OpView::CreateFile { path, ino, time, mode } => if file_exists(disk, path) {
            disk
        } else {
            DiskView {
                nodes: nodes.insert(path, NodeView::File(ino)),
                files: if files.contains_key(ino) {
                    files
                } else {
                    files.insert(ino, fresh_file(time, mode))
                },
            }
        },
        OpView::CreateDir { path, time, mode } => if dir_exists(disk, path) {
            disk
        } else {
            DiskView { nodes: nodes.insert(path, NodeView::Dir(fresh_dir(time, mode))), files }
        },
        OpView::CreateSymlink { path, target, time } => if symlink_exists(disk, path) {
            disk
        } else {
            DiskView {
                nodes: nodes.insert(path, NodeView::Symlink(fresh_symlink(target, time))),
                files,
            }
        },
        OpView::CreateHardLink { path, ino, time } => if files.contains_key(ino) {
            DiskView {
                nodes: nodes.insert(path, NodeView::File(ino)),
                files: files.insert(ino, FileView { ctime: time, ..files[ino] }),
            }
        } else {
            disk
        },
        OpView::Write { ino, offset, data, time } => DiskView {
            nodes,
            files: with_file(
                files,
                ino,
                FileView {
                    content: overwritten(files[ino].content, offset as nat, data),
                    mtime: time,
                    ctime: time,
                    ..files[ino]
                },
            ),
        },
        OpView::SetLen { ino, len, time } => DiskView {
            nodes,
            files: with_file(
                files,
                ino,
                FileView {
                    content: resized(files[ino].content, len as nat),
                    mtime: time,
                    ctime: time,
                    ..files[ino]
                },
            ),
        },
        OpView::SetPermissions { path, mode, time } => if nodes.contains_key(path) {
            match nodes[path] {
                NodeView::File(ino) => DiskView {
                    nodes,
                    files: with_file(files, ino, FileView { mode, ctime: time, ..files[ino] }),
                },
                NodeView::Dir(dir) => DiskView {
                    nodes: nodes.insert(path, NodeView::Dir(DirView { mode, ctime: time, ..dir })),
                    files,
                },
                NodeView::Symlink(_) => disk,
            }
        } else {
            disk
        },
        OpView::Rename { from, to, .. } => if nodes.contains_key(from) {
            DiskView { nodes: moved(nodes, from, to), files }
        } else {
            disk
        },
        OpView::RemoveFile { path, .. } => DiskView { nodes: nodes.remove(path), files },
        OpView::RemoveDir { path, .. } => DiskView { nodes: nodes.remove(path), files },
        OpView::RemoveTree { path, .. } => DiskView { nodes: without_tree(nodes, path), files },
    }
}

/// The entries with the directories modified in which the operation creates something, from
/// which it removes something, or into or out of which it renames something.
pub open spec fn touched(nodes: Map<PathView, NodeView>, op: OpView) -> Map<PathView, NodeView> {
    match op {
        OpView::CreateFile { path, time, .. } => modified(nodes, path, time),
        OpView::CreateDir { path, time, .. } => modified(nodes, path, time),
        OpView::CreateSymlink { path, time, .. } => modified(nodes, path, time),
        OpView::CreateHardLink { path, time, .. } => modified(nodes, path, time),
        OpView::Rename { from, to, time } => modified(modified(nodes, from, time), to, time),
        OpView::RemoveFile { path, time } => modified(nodes, path, time),
        OpView::RemoveDir { path, time } => modified(nodes, path, time),
        OpView::RemoveTree { path, time } => modified(nodes, path, time),
        _ => nodes,
    }
}

/// The disk that programs see after the operation: the directories in which it changes
/// something are modified.
pub open spec fn carried_out(disk: DiskView, op: OpView) -> DiskView {
    let after = apply(disk, op);
    DiskView { nodes: touched(after.nodes, op), ..after }
}

/// Whether a file stands at the path.
pub open spec fn file_exists(disk: DiskView, path: PathView) -> bool {
    disk.nodes.contains_key(path) && disk.nodes[path] is File
}

/// Whether a directory stands at the path.
pub open spec fn dir_exists(disk: DiskView, path: PathView) -> bool {
    disk.nodes.contains_key(path) && disk.nodes[path] is Dir
}

/// Whether a symbolic link stands at the path.
pub open spec fn symlink_exists(disk: DiskView, path: PathView) -> bool {
    disk.nodes.contains_key(path) && disk.nodes[path] is Symlink
}

/// Whether anything stands at the path.
pub open spec fn anything_at(disk: DiskView, path: PathView) -> bool {
    disk.nodes.contains_key(path)
}

/// Whether the path can have an entry: it is the root or in a directory.
pub open spec fn parent_exists(disk: DiskView, path: PathView) -> bool {
    path.len() == 0 || dir_exists(disk, path.drop_last())
}

/// The number of the file at the path.
pub open spec fn number_at(disk: DiskView, path: PathView) -> u64 {
    disk.nodes[path]->File_0
}

/// The file at the path.
pub open spec fn file_at(disk: DiskView, path: PathView) -> FileView {
    disk.files[number_at(disk, path)]
}

/// The bytes of the file at the path.
pub open spec fn file_content(disk: DiskView, path: PathView) -> Seq<u8> {
    file_at(disk, path).content
}

/// The text of the path that the symbolic link at the path points to.
pub open spec fn read_link(disk: DiskView, path: PathView) -> Option<Seq<u8>> {
    if symlink_exists(disk, path) {
        Some(disk.nodes[path]->Symlink_0.target)
    } else {
        None
    }
}

/// The names of the file with the number.
pub open spec fn names_of(disk: DiskView, ino: u64) -> Set<PathView> {
    Set::new(|p: PathView| disk.nodes.contains_key(p) && disk.nodes[p] == NodeView::File(ino))
}

/// Whether the file with the number has a name.
pub open spec fn is_named(disk: DiskView, ino: u64) -> bool {
    exists|p: PathView| #[trigger]
        disk.nodes.contains_key(p) && disk.nodes[p] == NodeView::File(ino)
}

/// Whether anything stands directly in the directory.
pub open spec fn has_children(disk: DiskView, dir: PathView) -> bool {
    exists|p: PathView| #[trigger] disk.nodes.contains_key(p) && path::is_child(p, dir)
}

/// How many bytes a read of at most `room` bytes at `offset` gives.
pub open spec fn read_len(content: Seq<u8>, offset: u64, room: nat) -> nat {
    if offset >= content.len() {
        0
    } else if room < content.len() - offset {
        room
    } else {
        (content.len() - offset) as nat
    }
}

/// The bytes that a read of at most `room` bytes at `offset` gives.
pub open spec fn read_bytes(content: Seq<u8>, offset: u64, room: nat) -> Seq<u8> {
    if offset >= content.len() {
        Seq::empty()
    } else {
        content.subrange(offset as int, offset + read_len(content, offset, room))
    }
}

/// The filesystem after the operation. A file that it creates is empty on the disk that
/// survives a crash, where no name leads to it yet.
pub open spec fn pushed(fs: FsView, op: OpView) -> FsView {
    FsView {
        live: carried_out(fs.live, op),
        persisted: match op {
            OpView::CreateFile { ino, time, mode, .. } => DiskView {
                files: fs.persisted.files.insert(ino, fresh_file(time, mode)),
                ..fs.persisted
            },
            _ => fs.persisted,
        },
        pending: fs.pending.push(op),
        next_ino: if op is CreateFile {
            (fs.next_ino + 1) as u64
        } else {
            fs.next_ino
        },
        ..fs
    }
}

/// Whether the operation changes the bytes of the file.
pub open spec fn is_data_of(op: OpView, ino: u64) -> bool {
    match op {
        OpView::Write { ino: n, .. } => n == ino,
        OpView::SetLen { ino: n, .. } => n == ino,
        _ => false,
    }
}

/// Whether the operation changes which entries the directory has.
pub open spec fn changes_entries_of(op: OpView, dir: PathView) -> bool {
    match op {
        OpView::CreateFile { path, .. } => path::is_child(path, dir),
        OpView::CreateDir { path, .. } => path::is_child(path, dir),
        OpView::CreateSymlink { path, .. } => path::is_child(path, dir),
        OpView::CreateHardLink { path, .. } => path::is_child(path, dir),
        OpView::Rename { from, to, .. } => path::is_child(from, dir) || path::is_child(to, dir),
        OpView::RemoveFile { path, .. } => path::is_child(path, dir),
        OpView::RemoveDir { path, .. } => path::is_child(path, dir),
        OpView::RemoveTree { path, .. } => path::is_child(path, dir),
        _ => false,
    }
}

/// Whether syncing the directory makes the operation durable: it changes which entries the
/// directory has, or creates the directory itself.
pub open spec fn is_entry_op(op: OpView, dir: PathView) -> bool {
    changes_entries_of(op, dir) || (op matches OpView::CreateDir { path, .. } && path == dir)
}

/// Whether one of the operations changes which entries the directory has.
pub open spec fn has_changes_of(ops: Seq<OpView>, dir: PathView) -> bool {
    exists|i: int| 0 <= i < ops.len() && changes_entries_of(#[trigger] ops[i], dir)
}

/// The operations that do not change the bytes of the file.
pub open spec fn not_data_ops(ops: Seq<OpView>, ino: u64) -> Seq<OpView> {
    ops.filter(|op: OpView| !is_data_of(op, ino))
}

/// The operations that syncing the directory does not make durable.
pub open spec fn not_entry_ops(ops: Seq<OpView>, dir: PathView) -> Seq<OpView> {
    ops.filter(|op: OpView| !is_entry_op(op, dir))
}

/// The filesystem with the file durable as it is.
pub open spec fn file_synced(fs: FsView, ino: u64) -> FsView {
    FsView {
        persisted: DiskView {
            files: with_file(fs.persisted.files, ino, fs.live.files[ino]),
            ..fs.persisted
        },
        pending: not_data_ops(fs.pending, ino),
        ..fs
    }
}

/// The disk after those of the operations that syncing the directory makes durable.
pub open spec fn entries_flushed(disk: DiskView, ops: Seq<OpView>, dir: PathView) -> DiskView
    decreases ops.len(),
{
    if ops.len() == 0 {
        disk
    } else {
        let before = entries_flushed(disk, ops.drop_last(), dir);
        if is_entry_op(ops.last(), dir) {
            apply(before, ops.last())
        } else {
            before
        }
    }
}

/// Whether the path is the directory or stands directly in it.
pub open spec fn is_of_dir(path: PathView, dir: PathView) -> bool {
    path == dir || path::is_child(path, dir)
}

/// Whether both are directories.
pub open spec fn are_dirs(a: NodeView, b: NodeView) -> bool {
    a is Dir && b is Dir
}

/// The entries with the directory and what stands directly in it as in the others. Where both
/// have a directory, it keeps its own times and permission bits.
pub open spec fn with_dir_of(
    nodes: Map<PathView, NodeView>,
    others: Map<PathView, NodeView>,
    dir: PathView,
) -> Map<PathView, NodeView> {
    Map::new(
        |p: PathView|
            if is_of_dir(p, dir) {
                others.contains_key(p)
            } else {
                nodes.contains_key(p)
            },
        |p: PathView|
            if is_of_dir(p, dir) && !(nodes.contains_key(p) && are_dirs(nodes[p], others[p])) {
                others[p]
            } else {
                nodes[p]
            },
    )
}

/// The durable disk once the directory and its entries are durable. The directory is modified
/// at the time where its entries changed. Permission bits that were changed stay pending.
pub open spec fn dir_flushed(fs: FsView, dir: PathView, time: Duration) -> DiskView {
    let flushed = entries_flushed(fs.persisted, fs.pending, dir);
    let nodes = with_dir_of(flushed.nodes, fs.live.nodes, dir);
    DiskView {
        nodes: if has_changes_of(fs.pending, dir) {
            stamped(nodes, dir, time)
        } else {
            nodes
        },
        ..flushed
    }
}

/// The filesystem with the directory and its entries durable.
pub open spec fn dir_synced(fs: FsView, dir: PathView, time: Duration) -> FsView {
    FsView {
        persisted: dir_flushed(fs, dir, time),
        pending: not_entry_ops(fs.pending, dir),
        ..fs
    }
}

/// The number of blocks that a write of `len` bytes touches when it starts on a block.
pub open spec fn block_count(len: nat, block: u64) -> nat {
    if len == 0 {
        0
    } else {
        ((len - 1) / (block as int) + 1) as nat
    }
}

/// The part of the operation that a crash leaves on the disk when `blocks` of its blocks
/// got through: the first bytes of a write to a file with a durable name.
pub open spec fn torn_op(disk: DiskView, op: OpView, block: u64, blocks: nat) -> Option<OpView> {
    match op {
        OpView::Write { ino, offset, data, time } => if is_named(disk, ino) && data.len() > 0
            && blocks > 0 {
            let survived = if blocks * block < data.len() {
                blocks * block
            } else {
                data.len() as int
            };
            Some(OpView::Write { ino, offset, data: data.take(survived), time })
        } else {
            None
        },
        _ => None,
    }
}

/// The disk after a crash has torn the operations, when `blocks[i]` blocks of the `i`th
/// operation got through.
pub open spec fn torn(disk: DiskView, ops: Seq<OpView>, block: u64, blocks: Seq<u64>) -> DiskView
    decreases ops.len(),
{
    if ops.len() == 0 {
        disk
    } else {
        let before = torn(disk, ops.drop_last(), block, blocks);
        match torn_op(before, ops.last(), block, blocks[ops.len() - 1] as nat) {
            Some(op) => apply(before, op),
            None => before,
        }
    }
}

/// Whether `blocks` says of every operation how many of its blocks can get through.
pub open spec fn valid_tear(ops: Seq<OpView>, block: u64, blocks: Seq<u64>) -> bool {
    &&& blocks.len() == ops.len()
    &&& forall|i: int|
        0 <= i < ops.len() ==> (#[trigger] ops[i] matches OpView::Write { data, .. }
            ==> blocks[i] <= block_count(data.len(), block))
}

/// The filesystem after a crash in which `blocks[i]` blocks of the `i`th pending
/// operation got through, where writes can tear.
pub open spec fn crashed(fs: FsView, blocks: Seq<u64>) -> FsView {
    let disk = match fs.config.block_size {
        Some(block) => torn(fs.persisted, fs.pending, block, blocks),
        None => fs.persisted,
    };
    FsView { live: disk, persisted: disk, pending: seq![], ..fs }
}

/// The bytes of those files with a number below `n` that have a name.
pub open spec fn used_below(disk: DiskView, n: nat) -> nat
    decreases n,
{
    if n == 0 {
        0
    } else {
        used_below(disk, (n - 1) as nat) + (if is_named(disk, (n - 1) as u64) {
            disk.files[(n - 1) as u64].content.len()
        } else {
            0
        })
    }
}

/// The bytes of all files that have a name.
pub open spec fn used_bytes(fs: FsView) -> nat {
    used_below(fs.live, fs.next_ino as nat)
}

/// Whether so many bytes more do not fit on the disk. The largest capacity is as good as
/// none.
pub open spec fn exceeds(fs: FsView, additional: u64) -> bool {
    match fs.config.capacity {
        Some(capacity) => capacity < u64::MAX && used_bytes(fs) + additional > capacity,
        None => false,
    }
}

/// The times of the file at the path.
pub open spec fn file_times(disk: DiskView, path: PathView) -> Option<Times> {
    if file_exists(disk, path) {
        let f = file_at(disk, path);
        Some((f.crtime, f.mtime, f.ctime))
    } else {
        None
    }
}

/// The times of the directory at the path.
pub open spec fn dir_times(disk: DiskView, path: PathView) -> Option<Times> {
    if dir_exists(disk, path) {
        let d = disk.nodes[path]->Dir_0;
        Some((d.crtime, d.mtime, d.ctime))
    } else {
        None
    }
}

/// The times of the symbolic link at the path.
pub open spec fn symlink_times(disk: DiskView, path: PathView) -> Option<Times> {
    if symlink_exists(disk, path) {
        let l = disk.nodes[path]->Symlink_0;
        Some((l.crtime, l.mtime, l.ctime))
    } else {
        None
    }
}

/// The permission bits of the file at the path.
pub open spec fn file_mode(disk: DiskView, path: PathView) -> Option<u32> {
    if file_exists(disk, path) {
        Some(file_at(disk, path).mode)
    } else {
        None
    }
}

/// The permission bits of the directory at the path.
pub open spec fn dir_mode(disk: DiskView, path: PathView) -> Option<u32> {
    if dir_exists(disk, path) {
        Some(disk.nodes[path]->Dir_0.mode)
    } else {
        None
    }
}

/// What creating an entry at `path` gives.
pub open spec fn mkdir_result(fs: FsView, path: PathView) -> Result<(), Cause> {
    if !parent_exists(fs.live, path) {
        Err(Cause::NoSuchEntry)
    } else if anything_at(fs.live, path) {
        Err(Cause::EntryExists)
    } else {
        Ok(())
    }
}

/// What removing the directory at `path` gives.
pub open spec fn rmdir_result(fs: FsView, path: PathView) -> Result<(), Cause> {
    if !dir_exists(fs.live, path) {
        Err(Cause::NoSuchEntry)
    } else if has_children(fs.live, path) {
        Err(Cause::DirectoryNotEmpty)
    } else {
        Ok(())
    }
}

/// What removing the file or symbolic link at `path` gives.
pub open spec fn unlink_result(fs: FsView, path: PathView) -> Result<(), Cause> {
    if file_exists(fs.live, path) || symlink_exists(fs.live, path) {
        Ok(())
    } else {
        Err(Cause::NoSuchEntry)
    }
}

/// What renaming `from` to `to` gives.
pub open spec fn rename_result(fs: FsView, from: PathView, to: PathView) -> Result<(), Cause> {
    if !parent_exists(fs.live, to) || !anything_at(fs.live, from) {
        Err(Cause::NoSuchEntry)
    } else if from == to {
        Ok(())
    } else if fs.live.nodes[from] is Dir && (file_exists(fs.live, to) || symlink_exists(
        fs.live,
        to,
    )) {
        Err(Cause::NotDirectory)
    } else if fs.live.nodes[from] is Dir && dir_exists(fs.live, to) && has_children(fs.live, to) {
        Err(Cause::DirectoryNotEmpty)
    } else if !(fs.live.nodes[from] is Dir) && dir_exists(fs.live, to) {
        Err(Cause::IsDirectory)
    } else if is_within(to, from) {
        Err(Cause::IntoItself)
    } else if is_within(from, to) {
        Err(Cause::DirectoryNotEmpty)
    } else {
        Ok(())
    }
}

/// The filesystem after `from` has been renamed to `to`.
pub open spec fn renamed(fs: FsView, from: PathView, to: PathView, time: Duration) -> FsView {
    if from == to {
        fs
    } else {
        pushed(fs, OpView::Rename { from, to, time })
    }
}

/// What making `path` a second name of the file at `target` gives.
pub open spec fn hard_link_result(fs: FsView, path: PathView, target: PathView) -> Result<
    (),
    Cause,
> {
    if !parent_exists(fs.live, path) || !file_exists(fs.live, target) {
        Err(Cause::NoSuchEntry)
    } else if anything_at(fs.live, path) {
        Err(Cause::EntryExists)
    } else {
        Ok(())
    }
}

/// What changing the permission bits at `path` gives.
pub open spec fn set_permissions_result(fs: FsView, path: PathView) -> Result<(), Cause> {
    if file_exists(fs.live, path) || dir_exists(fs.live, path) {
        Ok(())
    } else {
        Err(Cause::NoSuchEntry)
    }
}

/// The path without two dots: each of them takes back the name before it.
pub open spec fn plain(path: PathView) -> PathView
    decreases path.len(),
{
    if path.len() == 0 {
        path
    } else {
        let before = plain(path.drop_last());
        if !path::is_dotdot(path.last()) {
            before.push(path.last())
        } else {
            above(before)
        }
    }
}

/// The directory of the path, or the root for the root.
pub open spec fn above(path: PathView) -> PathView {
    if path.len() == 0 {
        path
    } else {
        path.drop_last()
    }
}

/// Where a symbolic link at `path` with the target text `target` leads.
pub open spec fn link_leads_to(path: PathView, target: Seq<u8>) -> PathView {
    if path::is_absolute(target) {
        plain(path::parse(target))
    } else {
        plain(above(path) + path::parse(target))
    }
}

/// Where `path` leads once the symbolic links that start there have been followed to the
/// end, or nothing where they are more than `links`.
pub open spec fn followed_by(disk: DiskView, path: PathView, links: nat) -> Option<PathView>
    decreases links,
{
    match read_link(disk, path) {
        None => Some(path),
        Some(target) => if links == 0 {
            None
        } else {
            followed_by(disk, link_leads_to(path, target), (links - 1) as nat)
        },
    }
}

/// Where `path` leads once the symbolic links that start there have been followed to the
/// end, or nothing where they lead in a circle.
pub open spec fn followed(disk: DiskView, path: PathView) -> Option<PathView> {
    followed_by(disk, path, MAX_SYMLINK_FOLLOWS as nat)
}

/// The filesystem with the pages of the file at `path` out of the page cache.
pub open spec fn uncached(fs: FsView, path: PathView) -> FsView {
    FsView {
        pages: match fs.pages {
            Some(pages) => Some(cache::without_file(pages, path)),
            None => None,
        },
        ..fs
    }
}

/// The filesystem with the pages of the files at `top` and below it out of the page cache.
pub open spec fn uncached_tree(fs: FsView, top: PathView) -> FsView {
    FsView {
        pages: match fs.pages {
            Some(pages) => Some(cache::without_tree(pages, top)),
            None => None,
        },
        ..fs
    }
}

/// The latency of an operation, when chance has scaled the span between the least and
/// the largest latency to `scaled`. Without settings for it everything is instant. What is
/// cached is read at the speed of memory.
pub open spec fn latency(config: FsConfig, cache_hit: bool, scaled: Duration) -> Duration {
    match config.io_latency {
        None => Duration { nanos: 0 },
        Some(l) => if cache_hit && config.page_cache is Some {
            Duration { nanos: 100 }
        } else {
            Duration { nanos: (l.min_latency.nanos + scaled.nanos) as u128 }
        },
    }
}

/// The page of the file at `path` that holds the byte at `offset`.
pub open spec fn page_of(fs: FsView, path: PathView, offset: u64) -> (PathView, u64) {
    (path, offset / fs.config.page_cache.unwrap().page_size)
}

/// Whether a read finds its page in the cache, when chance has decided whether to evict
/// the page first.
pub open spec fn read_hits(
    fs: FsView,
    path: PathView,
    offset: u64,
    direct_io: bool,
    evict: bool,
) -> bool {
    &&& !direct_io
    &&& fs.pages is Some
    &&& !evict
    &&& fs.pages.unwrap().contains(page_of(fs, path, offset))
}

/// The filesystem after the page has been put into the cache.
pub open spec fn cached(fs: FsView, path: PathView, offset: u64) -> FsView {
    match fs.pages {
        Some(pages) => FsView {
            pages: Some(
                cache::with_page(
                    pages,
                    fs.config.page_cache.unwrap().max_pages as nat,
                    page_of(fs, path, offset),
                ),
            ),
            ..fs
        },
        None => fs,
    }
}

/// The filesystem after a read has looked its page up in the cache, when chance has
/// decided whether to evict the page first.
pub open spec fn looked_up(fs: FsView, path: PathView, offset: u64, evict: bool) -> FsView {
    match fs.pages {
        Some(pages) => {
            let page = page_of(fs, path, offset);
            FsView {
                pages: Some(
                    if evict {
                        cache::without(pages, page)
                    } else if pages.contains(page) {
                        cache::without(pages, page).push(page)
                    } else {
                        pages
                    },
                ),
                ..fs
            }
        },
        None => fs,
    }
}

} // verus!
