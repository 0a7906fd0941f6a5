//! Laws of entries: what each operation does to what stands at the paths of a disk, when it
//! fails, and what makes it durable.
use crate::error::Cause;
use crate::fs::model;
use crate::fs::model::{DirView, DiskView, FileView, FsView, NodeView, OpView, SymlinkView};
use crate::path::PathView;
use crate::time::Duration;
use vstd::prelude::*;

verus! {

/// Whether the path starts with the names of the other one.
pub open spec fn starts_with(path: PathView, top: PathView) -> bool {
    top.len() <= path.len() && forall|k: int| 0 <= k < top.len() ==> #[trigger] path[k] == top[k]
}

/// Whether the path stands directly in the directory.
pub open spec fn stands_in(path: PathView, dir: PathView) -> bool {
    path.len() == dir.len() + 1 && forall|k: int|
        0 <= k < dir.len() ==> #[trigger] path[k] == dir[k]
}

/// What stands at a place, where it is a directory with the time at which its entries changed.
pub open spec fn with_times(node: NodeView, time: Duration) -> NodeView {
    match node {
        NodeView::Dir(d) => NodeView::Dir(
            DirView { crtime: d.crtime, mtime: time, ctime: time, mode: d.mode },
        ),
        _ => node,
    }
}

/// Whether nothing changed but the entry at the path and the times of the directory that it
/// stands in.
pub open spec fn only_entry_changed(
    before: Map<PathView, NodeView>,
    after: Map<PathView, NodeView>,
    path: PathView,
    time: Duration,
) -> bool {
    &&& forall|p: PathView|
        p != path ==> #[trigger] after.contains_key(p) == before.contains_key(p)
    &&& forall|p: PathView|
        p != path && before.contains_key(p) ==> #[trigger] after[p] == (if stands_in(path, p) {
            with_times(before[p], time)
        } else {
            before[p]
        })
}

pub proof fn lemma_stands_in(path: PathView, dir: PathView)
    ensures
        stands_in(path, dir) == (path.len() > 0 && path.drop_last() == dir),
{
    if stands_in(path, dir) {
        assert(path.drop_last() =~= dir);
    }
    if path.len() > 0 && path.drop_last() == dir {
        assert forall|k: int| 0 <= k < dir.len() implies #[trigger] path[k] == dir[k] by {
            assert(path.drop_last()[k] == path[k]);
        }
    }
}

pub proof fn lemma_starts_with(path: PathView, top: PathView)
    ensures
        starts_with(path, top) == model::is_within(path, top),
{
    if starts_with(path, top) {
        assert(path.take(top.len() as int) =~= top);
    }
    if model::is_within(path, top) {
        assert forall|k: int| 0 <= k < top.len() implies #[trigger] path[k] == top[k] by {
            assert(path.take(top.len() as int)[k] == path[k]);
        }
    }
}

proof fn lemma_modified(
    before: Map<PathView, NodeView>,
    changed: Map<PathView, NodeView>,
    path: PathView,
    time: Duration,
)
    requires
        forall|p: PathView|
            p != path ==> #[trigger] changed.contains_key(p) == before.contains_key(p),
        forall|p: PathView|
            p != path && before.contains_key(p) ==> #[trigger] changed[p] == before[p],
    ensures
        only_entry_changed(before, model::modified(changed, path, time), path, time),
        model::modified(changed, path, time).contains_key(path) == changed.contains_key(path),
        changed.contains_key(path) ==> model::modified(changed, path, time)[path] == changed[path],
{
    assert forall|p: PathView| stands_in(path, p) == (path.len() > 0 && path.drop_last() == p) by {
        lemma_stands_in(path, p);
    }
    if path.len() > 0 {
        assert(path.drop_last() != path);
    }
}

/// Every operation but the creation of a file is only pending at first: nothing about it is
/// durable. Descriptors, the cache and the settings stay.
pub proof fn law_operation_is_pending(fs: FsView, op: OpView)
    ensures
        ({
            let after = model::pushed(fs, op);
            &&& after.pending == fs.pending.push(op)
            &&& !(op is CreateFile) ==> after.persisted == fs.persisted && after.next_ino
                == fs.next_ino
            &&& (after.handles, after.next_fd, after.pages, after.config) == (
                fs.handles,
                fs.next_fd,
                fs.pages,
                fs.config,
            )
        }),
{
}

/// A file that is created is empty, stands at its path, and has the next number. No durable name
/// leads to it.
pub proof fn law_created_file(fs: FsView, path: PathView, time: Duration, mode: u32)
    requires
        !(fs.live.nodes.contains_key(path) && fs.live.nodes[path] is File),
        !fs.live.files.contains_key(fs.next_ino),
        fs.next_ino < u64::MAX,
    ensures
        ({
            let after = model::pushed(
                fs,
                OpView::CreateFile { path, ino: fs.next_ino, time, mode },
            );
            let file = FileView {
                content: Seq::empty(),
                crtime: time,
                mtime: time,
                ctime: time,
                mode,
            };
            &&& after.live.nodes.contains_key(path) && after.live.nodes[path] == NodeView::File(
                fs.next_ino,
            )
            &&& after.live.files == fs.live.files.insert(fs.next_ino, file)
            &&& only_entry_changed(fs.live.nodes, after.live.nodes, path, time)
            &&& after.persisted.nodes == fs.persisted.nodes
            &&& after.persisted.files == fs.persisted.files.insert(fs.next_ino, file)
            &&& after.next_ino == fs.next_ino + 1
        }),
{
    lemma_modified(
        fs.live.nodes,
        fs.live.nodes.insert(path, NodeView::File(fs.next_ino)),
        path,
        time,
    );
}

/// A directory that is created stands at its path, with its time and its permission bits.
pub proof fn law_created_directory(fs: FsView, path: PathView, time: Duration, mode: u32)
    requires
        !fs.live.nodes.contains_key(path),
    ensures
        ({
            let after = model::pushed(fs, OpView::CreateDir { path, time, mode }).live;
            &&& after.nodes.contains_key(path) && after.nodes[path] == NodeView::Dir(
                DirView { crtime: time, mtime: time, ctime: time, mode },
            )
            &&& only_entry_changed(fs.live.nodes, after.nodes, path, time)
            &&& after.files == fs.live.files
        }),
{
    lemma_modified(
        fs.live.nodes,
        fs.live.nodes.insert(path, NodeView::Dir(model::fresh_dir(time, mode))),
        path,
        time,
    );
}

/// A symbolic link that is created stands at its path with its target.
pub proof fn law_created_symlink(fs: FsView, path: PathView, target: Seq<u8>, time: Duration)
    requires
        !fs.live.nodes.contains_key(path),
    ensures
        ({
            let after = model::pushed(fs, OpView::CreateSymlink { path, target, time }).live;
            &&& after.nodes.contains_key(path) && after.nodes[path] == NodeView::Symlink(
                SymlinkView { target, crtime: time, mtime: time, ctime: time },
            )
            &&& only_entry_changed(fs.live.nodes, after.nodes, path, time)
            &&& after.files == fs.live.files
        }),
{
    lemma_modified(
        fs.live.nodes,
        fs.live.nodes.insert(path, NodeView::Symlink(model::fresh_symlink(target, time))),
        path,
        time,
    );
}

/// A further name of a file stands at its path and leads to the file, about which nothing but
/// the time of its last change differs.
pub proof fn law_created_hard_link(fs: FsView, path: PathView, ino: u64, time: Duration)
    requires
        !fs.live.nodes.contains_key(path),
        fs.live.files.contains_key(ino),
    ensures
        ({
            let after = model::pushed(fs, OpView::CreateHardLink { path, ino, time }).live;
            let (x, y) = (fs.live.files[ino], after.files[ino]);
            &&& after.nodes.contains_key(path) && after.nodes[path] == NodeView::File(ino)
            &&& only_entry_changed(fs.live.nodes, after.nodes, path, time)
            &&& after.files.dom() == fs.live.files.dom()
            &&& (y.content, y.crtime, y.mtime, y.mode) == (x.content, x.crtime, x.mtime, x.mode)
            &&& y.ctime == time
            &&& forall|n: u64|
                n != ino && fs.live.files.contains_key(n) ==> #[trigger] after.files[n]
                    == fs.live.files[n]
        }),
{
    lemma_modified(
        fs.live.nodes,
        fs.live.nodes.insert(path, NodeView::File(ino)),
        path,
        time,
    );
    let after = model::pushed(fs, OpView::CreateHardLink { path, ino, time }).live;
    assert(after.files.dom() =~= fs.live.files.dom());
}

/// What is removed stands at its path no more. The bytes of a file are not touched.
pub proof fn law_removed_entry(fs: FsView, path: PathView, time: Duration)
    ensures
        ({
            let file = model::pushed(fs, OpView::RemoveFile { path, time }).live;
            let dir = model::pushed(fs, OpView::RemoveDir { path, time }).live;
            &&& !file.nodes.contains_key(path) && !dir.nodes.contains_key(path)
            &&& only_entry_changed(fs.live.nodes, file.nodes, path, time)
            &&& only_entry_changed(fs.live.nodes, dir.nodes, path, time)
            &&& file.files == fs.live.files && dir.files == fs.live.files
        }),
{
    lemma_modified(fs.live.nodes, fs.live.nodes.remove(path), path, time);
}

/// A directory that is removed as a whole leaves nothing at its path and below it, and all else
/// where it stood.
pub proof fn law_removed_tree(fs: FsView, path: PathView, time: Duration, p: PathView)
    ensures
        ({
            let after = model::pushed(fs, OpView::RemoveTree { path, time }).live;
            &&& after.nodes.contains_key(p) <==> fs.live.nodes.contains_key(p) && !starts_with(
                p,
                path,
            )
            &&& after.nodes.contains_key(p) ==> after.nodes[p] == (if stands_in(path, p) {
                with_times(fs.live.nodes[p], time)
            } else {
                fs.live.nodes[p]
            })
            &&& after.files == fs.live.files
        }),
{
    lemma_starts_with(p, path);
    lemma_stands_in(path, p);
    if path.len() > 0 {
        assert(!model::is_within(path.drop_last(), path));
    }
}

/// What is renamed stands at its new path with all that stood below it, and at its old one no
/// more. What stood at the new path is gone. All else stands where it stood, and the two
/// directories have new times.
pub proof fn law_renamed_entry(
    fs: FsView,
    from: PathView,
    to: PathView,
    time: Duration,
    rest: PathView,
    p: PathView,
)
    requires
        fs.live.nodes.contains_key(from),
        !starts_with(from, to) && !starts_with(to, from),
    ensures
        ({
            let before = fs.live.nodes;
            let after = model::renamed(fs, from, to, time).live.nodes;
            &&& after.contains_key(to + rest) == before.contains_key(from + rest)
            &&& before.contains_key(from + rest) ==> after[to + rest] == before[from + rest]
            &&& starts_with(p, from) ==> !after.contains_key(p)
            &&& !starts_with(p, from) && !starts_with(p, to) ==> {
                &&& after.contains_key(p) == before.contains_key(p)
                &&& before.contains_key(p) ==> after[p] == (if stands_in(from, p) || stands_in(
                    to,
                    p,
                ) {
                    with_times(before[p], time)
                } else {
                    before[p]
                })
            }
            &&& model::renamed(fs, from, to, time).live.files == fs.live.files
        }),
{
    let q = to + rest;
    lemma_starts_with(p, from);
    lemma_starts_with(p, to);
    lemma_starts_with(from, to);
    lemma_starts_with(to, from);
    lemma_stands_in(from, p);
    lemma_stands_in(to, p);
    lemma_stands_in(from, q);
    lemma_stands_in(to, q);
    assert(q.take(to.len() as int) =~= to);
    assert(q.skip(to.len() as int) =~= rest);
    if stands_in(from, q) {
        assert(from.take(to.len() as int) =~= q.take(to.len() as int));
    }
    if model::is_within(p, from) && model::is_within(p, to) {
        if from.len() <= to.len() {
            assert(to.take(from.len() as int) =~= p.take(from.len() as int));
        } else {
            assert(from.take(to.len() as int) =~= p.take(to.len() as int));
        }
    }
    if from.len() > 0 {
        assert(!model::is_within(from.drop_last(), from));
    }
}

/// Renaming an entry to itself does nothing.
pub proof fn law_renamed_to_itself(fs: FsView, path: PathView, time: Duration)
    ensures
        model::renamed(fs, path, path, time) == fs,
{
}

/// Permission bits that are set are those of the file or directory at the path. Nothing else
/// about it changes but the time of its last change, and a symbolic link does not change.
pub proof fn law_permissions_that_are_set(fs: FsView, path: PathView, mode: u32, time: Duration)
    requires
        fs.live.nodes.contains_key(path),
    ensures
        ({
            let before = fs.live;
            let after = model::pushed(fs, OpView::SetPermissions { path, mode, time }).live;
            match before.nodes[path] {
                NodeView::File(ino) => {
                    &&& after.nodes == before.nodes
                    &&& before.files.contains_key(ino) ==> after.files == before.files.insert(
                        ino,
                        FileView {
                            content: before.files[ino].content,
                            crtime: before.files[ino].crtime,
                            mtime: before.files[ino].mtime,
                            ctime: time,
                            mode,
                        },
                    )
                },
                NodeView::Dir(d) => {
                    &&& after.nodes == before.nodes.insert(
                        path,
                        NodeView::Dir(
                            DirView { crtime: d.crtime, mtime: d.mtime, ctime: time, mode },
                        ),
                    )
                    &&& after.files == before.files
                },
                NodeView::Symlink(_) => after == before,
            }
        }),
{
}

/// A file that is cut or extended has the new length, the bytes that it had as far as they go,
/// and zeros behind. Its bytes have changed at the time.
pub proof fn law_length_that_is_set(fs: FsView, ino: u64, len: u64, time: Duration)
    requires
        fs.live.files.contains_key(ino),
    ensures
        ({
            let after = model::pushed(fs, OpView::SetLen { ino, len, time }).live;
            let (x, y) = (fs.live.files[ino], after.files[ino]);
            &&& after.nodes == fs.live.nodes && after.files == fs.live.files.insert(ino, y)
            &&& y.content.len() == len
            &&& forall|k: int|
                0 <= k < len ==> #[trigger] y.content[k] == (if k < x.content.len() {
                    x.content[k]
                } else {
                    0u8
                })
            &&& y.mtime == time && y.ctime == time && y.crtime == x.crtime && y.mode == x.mode
        }),
{
}

/// Something can be created where its directory stands and nothing stands at its path.
pub proof fn law_when_something_can_be_created(fs: FsView, path: PathView)
    ensures
        ({
            let n = fs.live.nodes;
            let parent = path.len() == 0 || (n.contains_key(path.take(path.len() - 1)) && n[path.take(
                path.len() - 1,
            )] is Dir);
            let r = model::mkdir_result(fs, path);
            &&& r is Ok <==> parent && !n.contains_key(path)
            &&& !parent ==> r == Err::<(), Cause>(Cause::NoSuchEntry)
            &&& parent && n.contains_key(path) ==> r == Err::<(), Cause>(Cause::EntryExists)
        }),
{
    if path.len() > 0 {
        assert(path.drop_last() =~= path.take(path.len() - 1));
    }
}

/// A directory can be removed where it stands and nothing stands in it. A file or symbolic link
/// can be removed where it stands.
pub proof fn law_when_something_can_be_removed(fs: FsView, path: PathView)
    ensures
        ({
            let n = fs.live.nodes;
            let dir = n.contains_key(path) && n[path] is Dir;
            let full = exists|p: PathView| #[trigger] n.contains_key(p) && stands_in(p, path);
            let r = model::rmdir_result(fs, path);
            &&& r is Ok <==> dir && !full
            &&& !dir ==> r == Err::<(), Cause>(Cause::NoSuchEntry)
            &&& dir && full ==> r == Err::<(), Cause>(Cause::DirectoryNotEmpty)
        }),
        ({
            let n = fs.live.nodes;
            let r = model::unlink_result(fs, path);
            &&& r is Ok <==> n.contains_key(path) && !(n[path] is Dir)
            &&& r is Err ==> r == Err::<(), Cause>(Cause::NoSuchEntry)
        }),
{
    lemma_children(fs.live.nodes, path);
    assert(model::has_children(fs.live, path) == (exists|p: PathView| #[trigger]
        fs.live.nodes.contains_key(p) && path.len() + 1 == p.len() && stands_in(p, path)));
}

proof fn lemma_children(nodes: Map<PathView, NodeView>, dir: PathView)
    ensures
        (exists|p: PathView| #[trigger] nodes.contains_key(p) && stands_in(p, dir)) == (exists|
            p: PathView,
        | #[trigger]
            nodes.contains_key(p) && crate::path::is_child(p, dir)),
{
    if exists|p: PathView| #[trigger] nodes.contains_key(p) && stands_in(p, dir) {
        let p = choose|p: PathView| #[trigger] nodes.contains_key(p) && stands_in(p, dir);
        lemma_stands_in(p, dir);
        assert(nodes.contains_key(p) && crate::path::is_child(p, dir));
    }
    if exists|p: PathView| #[trigger] nodes.contains_key(p) && crate::path::is_child(p, dir) {
        let p = choose|p: PathView| #[trigger]
            nodes.contains_key(p) && crate::path::is_child(p, dir);
        lemma_stands_in(p, dir);
        assert(nodes.contains_key(p) && stands_in(p, dir));
    }
}

/// An entry can be renamed where it stands and the directory of its new path stands. What stands
/// there must be of its kind, and empty where it is a directory; and neither path can start with
/// the other.
pub proof fn law_when_something_can_be_renamed(fs: FsView, from: PathView, to: PathView)
    ensures
        ({
            let n = fs.live.nodes;
            let parent = to.len() == 0 || (n.contains_key(to.take(to.len() - 1)) && n[to.take(
                to.len() - 1,
            )] is Dir);
            let full = exists|p: PathView| #[trigger] n.contains_key(p) && stands_in(p, to);
            let r = model::rename_result(fs, from, to);
            let there = parent && n.contains_key(from);
            let fits = !n.contains_key(to) || (n[from] is Dir && n[to] is Dir && !full) || (!(
            n[from] is Dir) && !(n[to] is Dir));
            &&& r is Ok <==> there && (from == to || (fits && !starts_with(to, from)
                && !starts_with(from, to)))
            &&& !there ==> r == Err::<(), Cause>(Cause::NoSuchEntry)
            &&& there && from != to && n[from] is Dir && n.contains_key(to) && !(n[to] is Dir)
                ==> r == Err::<(), Cause>(Cause::NotDirectory)
            &&& there && from != to && n[from] is Dir && n.contains_key(to) && n[to] is Dir && full
                ==> r == Err::<(), Cause>(Cause::DirectoryNotEmpty)
            &&& there && from != to && !(n[from] is Dir) && n.contains_key(to) && n[to] is Dir
                ==> r == Err::<(), Cause>(Cause::IsDirectory)
            &&& there && from != to && fits && starts_with(to, from) ==> r == Err::<(), Cause>(
                Cause::IntoItself,
            )
            &&& there && from != to && fits && !starts_with(to, from) && starts_with(from, to)
                ==> r == Err::<(), Cause>(Cause::DirectoryNotEmpty)
        }),
{
    lemma_children(fs.live.nodes, to);
    lemma_starts_with(to, from);
    lemma_starts_with(from, to);
    if to.len() > 0 {
        assert(to.drop_last() =~= to.take(to.len() - 1));
    }
}

/// A file can have a further name where that name's directory stands and nothing stands at it.
/// Permission bits can be set on a file or directory.
pub proof fn law_when_names_and_permissions_can_be_set(fs: FsView, path: PathView, target: PathView)
    ensures
        ({
            let n = fs.live.nodes;
            let parent = path.len() == 0 || (n.contains_key(path.take(path.len() - 1)) && n[path.take(
                path.len() - 1,
            )] is Dir);
            let file = n.contains_key(target) && n[target] is File;
            let r = model::hard_link_result(fs, path, target);
            &&& r is Ok <==> parent && file && !n.contains_key(path)
            &&& !(parent && file) ==> r == Err::<(), Cause>(Cause::NoSuchEntry)
            &&& parent && file && n.contains_key(path) ==> r == Err::<(), Cause>(
                Cause::EntryExists,
            )
        }),
        ({
            let n = fs.live.nodes;
            let r = model::set_permissions_result(fs, path);
            &&& r is Ok <==> n.contains_key(path) && !(n[path] is Symlink)
            &&& r is Err ==> r == Err::<(), Cause>(Cause::NoSuchEntry)
        }),
{
    if path.len() > 0 {
        assert(path.drop_last() =~= path.take(path.len() - 1));
    }
}

/// A file that is synced is durable as programs see it, with its bytes, its times and its
/// permission bits. No other file and no entry becomes durable, and just the changes to its bytes
/// are pending no more.
pub proof fn law_synced_file_is_durable(fs: FsView, ino: u64, n: u64)
    requires
        fs.persisted.files.contains_key(ino),
    ensures
        ({
            let after = model::file_synced(fs, ino);
            &&& after.persisted.files.dom() == fs.persisted.files.dom()
            &&& after.persisted.files[ino] == fs.live.files[ino]
            &&& n != ino && fs.persisted.files.contains_key(n) ==> after.persisted.files[n]
                == fs.persisted.files[n]
            &&& after.persisted.nodes == fs.persisted.nodes
            &&& after.live == fs.live
            &&& after.pending == fs.pending.filter(
                |op: OpView|
                    match op {
                        OpView::Write { ino: m, .. } => m != ino,
                        OpView::SetLen { ino: m, .. } => m != ino,
                        _ => true,
                    },
            )
            &&& (after.handles, after.next_fd, after.next_ino, after.pages, after.config) == (
                fs.handles,
                fs.next_fd,
                fs.next_ino,
                fs.pages,
                fs.config,
            )
        }),
{
    let after = model::file_synced(fs, ino);
    assert(after.persisted.files.dom() =~= fs.persisted.files.dom());
    let a = |op: OpView| !model::is_data_of(op, ino);
    let b = |op: OpView|
        match op {
            OpView::Write { ino: m, .. } => m != ino,
            OpView::SetLen { ino: m, .. } => m != ino,
            _ => true,
        };
    assert(a =~= b);
}

/// Whether the operation changes which entries the directory has.
pub open spec fn changes_directory(op: OpView, dir: PathView) -> bool {
    match op {
        OpView::CreateFile { path, .. } => stands_in(path, dir),
        OpView::CreateDir { path, .. } => stands_in(path, dir),
        OpView::CreateSymlink { path, .. } => stands_in(path, dir),
        OpView::CreateHardLink { path, .. } => stands_in(path, dir),
        OpView::Rename { from, to, .. } => stands_in(from, dir) || stands_in(to, dir),
        OpView::RemoveFile { path, .. } => stands_in(path, dir),
        OpView::RemoveDir { path, .. } => stands_in(path, dir),
        OpView::RemoveTree { path, .. } => stands_in(path, dir),
        OpView::Write { .. } => false,
        OpView::SetLen { .. } => false,
        OpView::SetPermissions { .. } => false,
    }
}

/// Whether the operation changes which entries the directory has, or creates the directory.
pub open spec fn is_about(op: OpView, dir: PathView) -> bool {
    changes_directory(op, dir) || (op matches OpView::CreateDir { path, .. } && path == dir)
}

proof fn lemma_is_about(op: OpView, dir: PathView)
    ensures
        changes_directory(op, dir) == model::changes_entries_of(op, dir),
        is_about(op, dir) == model::is_entry_op(op, dir),
{
    match op {
        OpView::CreateFile { path, .. } => lemma_stands_in(path, dir),
        OpView::CreateDir { path, .. } => lemma_stands_in(path, dir),
        OpView::CreateSymlink { path, .. } => lemma_stands_in(path, dir),
        OpView::CreateHardLink { path, .. } => lemma_stands_in(path, dir),
        OpView::Rename { from, to, .. } => {
            lemma_stands_in(from, dir);
            lemma_stands_in(to, dir);
        },
        OpView::RemoveFile { path, .. } => lemma_stands_in(path, dir),
        OpView::RemoveDir { path, .. } => lemma_stands_in(path, dir),
        OpView::RemoveTree { path, .. } => lemma_stands_in(path, dir),
        _ => {},
    }
}

/// A directory that is synced is durable with its entries as programs see them: what stands in it
/// stands there after a crash, and nothing else does. Elsewhere the disk is as after the changes
/// to the directory, in their order. These are pending no more; every other one is. Where one of
/// them changed which entries the directory has, the durable directory has the time.
pub proof fn law_synced_directory_is_durable(
    fs: FsView,
    dir: PathView,
    time: Duration,
    p: PathView,
)
    ensures
        ({
            let after = model::dir_synced(fs, dir, time);
            let disk = fs.pending.filter(|op: OpView| is_about(op, dir)).fold_left(
                fs.persisted,
                |d: DiskView, op: OpView| model::apply(d, op),
            );
            let n = after.persisted.nodes;
            &&& after.live == fs.live
            &&& after.pending == fs.pending.filter(|op: OpView| !is_about(op, dir))
            &&& p == dir || stands_in(p, dir) ==> {
                &&& n.contains_key(p) == fs.live.nodes.contains_key(p)
                &&& n.contains_key(p) && !(fs.live.nodes[p] is Dir) ==> n[p] == fs.live.nodes[p]
                &&& n.contains_key(p) && fs.live.nodes[p] is Dir ==> n[p] is Dir
            }
            &&& p != dir && !stands_in(p, dir) ==> {
                &&& n.contains_key(p) == disk.nodes.contains_key(p)
                &&& n.contains_key(p) ==> n[p] == disk.nodes[p]
            }
            &&& after.persisted.files == disk.files
            &&& (exists|i: int|
                0 <= i < fs.pending.len() && changes_directory(#[trigger] fs.pending[i], dir))
                && fs.live.nodes.contains_key(dir) ==> (n[dir] matches NodeView::Dir(d) ==> d.mtime
                == time && d.ctime == time)
            &&& (after.handles, after.next_fd, after.next_ino, after.pages, after.config) == (
                fs.handles,
                fs.next_fd,
                fs.next_ino,
                fs.pages,
                fs.config,
            )
        }),
{
    let about = |op: OpView| is_about(op, dir);
    lemma_flushed(fs.persisted, fs.pending, dir);
    lemma_stands_in(p, dir);
    assert forall|op: OpView| is_about(op, dir) == model::is_entry_op(op, dir) by {
        lemma_is_about(op, dir);
    }
    let a = |op: OpView| !model::is_entry_op(op, dir);
    let b = |op: OpView| !is_about(op, dir);
    assert(a =~= b);
    if exists|i: int|
        0 <= i < fs.pending.len() && changes_directory(#[trigger] fs.pending[i], dir) {
        let i = choose|i: int|
            0 <= i < fs.pending.len() && changes_directory(#[trigger] fs.pending[i], dir);
        lemma_is_about(fs.pending[i], dir);
        assert(model::changes_entries_of(fs.pending[i], dir));
    }
}

proof fn lemma_flushed(disk: DiskView, ops: Seq<OpView>, dir: PathView)
    ensures
        model::entries_flushed(disk, ops, dir) == ops.filter(
            |op: OpView| is_about(op, dir),
        ).fold_left(disk, |d: DiskView, op: OpView| model::apply(d, op)),
    decreases ops.len(),
{
    reveal(Seq::filter);
    let about = |op: OpView| is_about(op, dir);
    let step = |d: DiskView, op: OpView| model::apply(d, op);
    if ops.len() > 0 {
        lemma_flushed(disk, ops.drop_last(), dir);
        lemma_is_about(ops.last(), dir);
        let before = ops.drop_last().filter(about);
        if about(ops.last()) {
            let here = before.push(ops.last());
            assert(here.drop_last() =~= before);
            assert(here.fold_left(disk, step) == step(before.fold_left(disk, step), ops.last()));
        }
    }
}

/// After a crash programs see the disk that survives it. Its entries are the durable ones,
/// nothing is pending, and what writes left of themselves is all that is new.
pub proof fn law_entries_after_a_crash(fs: FsView, blocks: Seq<u64>)
    ensures
        ({
            let after = model::crashed(fs, blocks);
            &&& after.live == after.persisted && after.pending.len() == 0
            &&& after.live.nodes == fs.persisted.nodes
            &&& fs.config.block_size is None ==> after.live == fs.persisted
            &&& (after.handles, after.next_fd, after.next_ino, after.pages, after.config) == (
                fs.handles,
                fs.next_fd,
                fs.next_ino,
                fs.pages,
                fs.config,
            )
        }),
{
    if let Some(block) = fs.config.block_size {
        lemma_torn_entries(fs.persisted, fs.pending, block, blocks);
    }
}

proof fn lemma_torn_entries(disk: DiskView, ops: Seq<OpView>, block: u64, blocks: Seq<u64>)
    ensures
        model::torn(disk, ops, block, blocks).nodes == disk.nodes,
    decreases ops.len(),
{
    if ops.len() > 0 {
        lemma_torn_entries(disk, ops.drop_last(), block, blocks);
    }
}

/// A write touches as many blocks as it takes to hold its bytes.
pub proof fn law_blocks_hold_the_bytes(len: nat, block: u64)
    requires
        block > 0,
    ensures
        ({
            let n = model::block_count(len, block);
            &&& len <= n * block
            &&& n > 0 ==> (n - 1) * block < len
            &&& len == 0 ==> n == 0
        }),
{
    if len > 0 {
        vstd::arithmetic::div_mod::lemma_fundamental_div_mod(len - 1, block as int);
        let q = (len - 1) / (block as int);
        let r = (len - 1) % (block as int);
        assert(q >= 0) by {
            vstd::arithmetic::div_mod::lemma_div_pos_is_pos(len - 1, block as int);
        }
        assert((q + 1) * block == block * q + block) by (nonlinear_arith);
        assert(0 <= r < block);
        assert(q * block == block * q) by (nonlinear_arith);
    }
}

/// A crash can let through any number of the blocks that hold the bytes of a write, and no more.
pub proof fn law_tears_that_can_happen(ops: Seq<OpView>, block: u64, blocks: Seq<u64>)
    requires
        block > 0,
    ensures
        model::valid_tear(ops, block, blocks) <==> {
            &&& blocks.len() == ops.len()
            &&& forall|i: int|
                0 <= i < ops.len() ==> (#[trigger] ops[i] matches OpView::Write { data, .. }
                    ==> blocks[i] == 0 || (blocks[i] - 1) * block < data.len())
        },
{
    if blocks.len() == ops.len() {
        assert forall|i: int| 0 <= i < ops.len() implies (#[trigger] ops[i] matches OpView::Write {
            data,
            ..
        } ==> (blocks[i] <= model::block_count(data.len(), block) <==> blocks[i] == 0 || (blocks[i]
            - 1) * block < data.len())) by {
            if let OpView::Write { data, .. } = ops[i] {
                lemma_blocks(data.len(), block, blocks[i] as nat);
            }
        }
    }
}

proof fn lemma_blocks(len: nat, block: u64, n: nat)
    requires
        block > 0,
    ensures
        n <= model::block_count(len, block) <==> n == 0 || (n - 1) * block < len,
{
    law_blocks_hold_the_bytes(len, block);
    let m = model::block_count(len, block);
    if 0 < n <= m {
        assert((n - 1) * block <= (m - 1) * block) by (nonlinear_arith)
            requires
                0 < n <= m,
                block > 0,
        ;
    }
    if n > m {
        assert((n - 1) * block >= m * block) by (nonlinear_arith)
            requires
                n > m,
                block > 0,
        ;
    }
}

} // verus!
