//! The filesystem of a host.
use crate::collections::NumMap;
use crate::error::Cause;
use crate::fs::cache::PageCache;
use crate::fs::config::{FsConfig, IoLatency};
use crate::fs::disk;
use crate::fs::disk::Disk;
use crate::fs::model;
use crate::fs::model::{
    DiskView, FsView, HandleView, NodeView, OpView, Times, DIR_MODE, FILE_MODE,
};
use crate::fs::ops::{FileData, Handle, Node, PendingOp};
use crate::path;
use crate::path::{bytes_copy, PathBuf, PathView};
use crate::random::random_up_to;
use crate::time::Duration;
use rand::rngs::SmallRng;
use vstd::prelude::*;

verus! {

/// The filesystem of a host.
///
/// It has two disks: `live` is what programs see, and `persisted` is what survives a crash.
/// `pending` holds the writes, cuts and renames that are on the first but not on the second.
///
/// [`Fs::sync_file`] makes the data of a file durable, [`Fs::sync_dir`] the entries of a
/// directory.
pub struct Fs {
    live: Disk,
    persisted: Disk,
    pending: Vec<PendingOp>,
    open_handles: NumMap<Handle>,
    next_fd: u64,
    next_ino: u64,
    page_cache: Option<PageCache>,
    config: FsConfig,
}

/// What the operations are.
pub open spec fn ops_view(ops: Seq<PendingOp>) -> Seq<OpView> {
    Seq::new(ops.len(), |i: int| ops[i]@)
}

impl View for Fs {
    type V = FsView;

    closed spec fn view(&self) -> FsView {
        FsView {
            live: self.live@,
            persisted: self.persisted@,
            pending: ops_view(self.pending@),
            handles: self.open_handles@,
            next_fd: self.next_fd,
            next_ino: self.next_ino,
            pages: match self.page_cache {
                Some(cache) => Some(cache@),
                None => None,
            },
            config: self.config,
        }
    }
}

proof fn lemma_take(ops: Seq<OpView>, i: int)
    requires
        0 <= i < ops.len(),
    ensures
        ops.take(i + 1).drop_last() == ops.take(i),
        ops.take(i + 1).last() == ops[i],
        ops.take(i + 1).len() == i + 1,
        ops.take(ops.len() as int) == ops,
{
    assert(ops.take(i + 1).drop_last() =~= ops.take(i));
    assert(ops.take(ops.len() as int) =~= ops);
}

proof fn lemma_take_all(ops: Seq<OpView>)
    ensures
        ops.take(ops.len() as int) == ops,
        ops.take(0) == Seq::<OpView>::empty(),
{
    assert(ops.take(ops.len() as int) =~= ops);
    assert(ops.take(0) =~= Seq::<OpView>::empty());
}

/// Whether the filesystem can take the operation: what it speaks of is there and fits, and a
/// file that it creates is new and gets the next number.
pub open spec fn op_valid(fs: FsView, op: OpView) -> bool {
    &&& model::op_fits(op)
    &&& match op {
        OpView::CreateFile { path, ino, .. } => {
            &&& ino == fs.next_ino && ino < u64::MAX
            &&& !model::file_exists(fs.live, path)
        },
        _ => model::op_known(op, fs.next_ino),
    }
}

/// An operation that a filesystem can take leaves it in order.
pub proof fn lemma_pushed_wf(fs: FsView, op: OpView)
    requires
        model::fs_wf(fs),
        op_valid(fs, op),
    ensures
        model::fs_wf(model::pushed(fs, op)),
{
    let after = model::pushed(fs, op);
    lemma_applied_wf(fs.live, op, fs.next_ino, after.next_ino);
    assert(model::disk_wf(after.live, after.next_ino)) by {
        let next = model::apply(fs.live, op);
        assert forall|p: PathView| #[trigger] after.live.nodes.contains_key(p) implies (
        after.live.nodes[p] matches NodeView::File(ino) ==> after.live.files.contains_key(
            ino,
        )) by {
            assert(next.nodes.contains_key(p));
        }
    }
    assert(model::disk_wf(after.persisted, after.next_ino)) by {
        assert forall|p: PathView| #[trigger] after.persisted.nodes.contains_key(p) implies (
        after.persisted.nodes[p] matches NodeView::File(ino) ==> after.persisted.files.contains_key(
            ino,
        )) by {
            assert(fs.persisted.nodes.contains_key(p));
        }
        assert forall|ino: u64| #[trigger] after.persisted.files.contains_key(ino) implies
            after.persisted.files[ino].content.len() <= isize::MAX by {
            if ino < fs.next_ino {
                assert(fs.persisted.files.contains_key(ino));
            }
        }
    }
    assert forall|i: int| 0 <= i < after.pending.len() implies model::op_fits(
        #[trigger] after.pending[i],
    ) && model::op_known(after.pending[i], after.next_ino) by {
        if i < fs.pending.len() {
            assert(model::op_fits(fs.pending[i]));
        }
    }
    assert(after.pending.drop_last() =~= fs.pending);
    assert forall|ino: u64| #[trigger] after.live.files.contains_key(ino) implies
        after.live.files[ino].content == model::content_after(
        after.persisted.files[ino].content,
        after.pending,
        ino,
    ) by {
        if ino < fs.next_ino {
            assert(fs.live.files.contains_key(ino));
            assert(fs.persisted.files.contains_key(ino));
        } else {
            lemma_unknown_file(Seq::empty(), fs.pending, ino, fs.next_ino);
        }
    }
}

/// Operations on other files leave a file's bytes alone.
proof fn lemma_unknown_file(content: Seq<u8>, ops: Seq<OpView>, ino: u64, next_ino: u64)
    requires
        forall|i: int| 0 <= i < ops.len() ==> model::op_known(#[trigger] ops[i], next_ino),
        ino >= next_ino,
    ensures
        model::content_after(content, ops, ino) == content,
    decreases ops.len(),
{
    if ops.len() > 0 {
        assert forall|i: int| 0 <= i < ops.drop_last().len() implies model::op_known(
            #[trigger] ops.drop_last()[i],
            next_ino,
        ) by {
            assert(model::op_known(ops[i], next_ino));
        }
        lemma_unknown_file(content, ops.drop_last(), ino, next_ino);
        assert(model::op_known(ops[ops.len() - 1], next_ino));
    }
}

/// An operation leaves a disk in order.
proof fn lemma_applied_wf(disk: DiskView, op: OpView, before: u64, after: u64)
    requires
        model::disk_wf(disk, before),
        model::op_fits(op),
        before <= after,
        model::op_known(op, after),
        after == before || (op matches OpView::CreateFile { path, ino, .. } && ino == before
            && after == before + 1 && !model::file_exists(disk, path)),
    ensures
        model::disk_wf(model::apply(disk, op), after),
{
    let next = model::apply(disk, op);
    assert forall|ino: u64| #[trigger] next.files.contains_key(ino) implies
        next.files[ino].content.len() <= isize::MAX by {
        if ino < before {
            assert(disk.files.contains_key(ino));
        }
    }
    assert forall|p: PathView| #[trigger] next.nodes.contains_key(p) implies (
    next.nodes[p] matches NodeView::File(ino) ==> next.files.contains_key(ino)) by {
        match op {
            OpView::Rename { from, to, .. } => {
                let was = model::stood_at(from, to, p);
                assert(disk.nodes.contains_key(was) || disk.nodes.contains_key(p));
            },
            _ => {
                assert(disk.nodes.contains_key(p) || !disk.nodes.contains_key(p));
            },
        }
    }
}

impl Fs {
    /// Whether the filesystem is one that its operations can lead to.
    pub open spec fn wf(&self) -> bool {
        model::fs_wf(self@) && self.cache_wf()
    }

    /// Whether the page cache is one that its operations can lead to.
    pub closed spec fn cache_wf(&self) -> bool {
        match self.page_cache {
            Some(cache) => cache.wf() && self.config.page_cache == Some(cache.settings()),
            None => self.config.page_cache is None,
        }
    }

    /// A filesystem with nothing but the root directory.
    pub fn new(config: FsConfig) -> (r: Fs)
        requires
            config.wf(),
        ensures
            r.wf(),
            r@ == empty_fs(config),
    {
        let r = Fs {
            live: Disk::new(),
            persisted: Disk::new(),
            pending: Vec::new(),
            open_handles: NumMap::new(),
            next_fd: 0,
            next_ino: 0,
            page_cache: match config.page_cache {
                Some(cache) => Some(PageCache::new(cache)),
                None => None,
            },
            config,
        };
        proof {
            assert(r@.pending =~= empty_fs(config).pending);
            assert(r@.handles =~= empty_fs(config).handles);
        }
        r
    }

    /// Whether a file stands at `path`.
    pub fn file_exists(&self, path: &PathBuf) -> (r: bool)
        ensures
            r == model::file_exists(self@.live, path@),
    {
        self.live.file_exists(path)
    }

    /// Whether a directory stands at `path`.
    pub fn dir_exists(&self, path: &PathBuf) -> (r: bool)
        ensures
            r == model::dir_exists(self@.live, path@),
    {
        self.live.dir_exists(path)
    }

    /// Whether a symbolic link stands at `path`.
    pub fn symlink_exists(&self, path: &PathBuf) -> (r: bool)
        ensures
            r == model::symlink_exists(self@.live, path@),
    {
        self.live.symlink_exists(path)
    }

    /// Whether anything stands at `path`.
    pub fn anything_at(&self, path: &PathBuf) -> (r: bool)
        ensures
            r == model::anything_at(self@.live, path@),
    {
        self.live.anything_at(path)
    }

    /// Whether `path` can have an entry: it is the root or in a directory.
    pub fn parent_exists(&self, path: &PathBuf) -> (r: bool)
        ensures
            r == model::parent_exists(self@.live, path@),
    {
        match path.parent() {
            Some(parent) => self.dir_exists(&parent),
            None => true,
        }
    }

    /// The number of the file at `path`.
    pub fn file_number(&self, path: &PathBuf) -> (r: Option<u64>)
        requires
            self.wf(),
        ensures
            match r {
                Some(ino) => model::file_exists(self@.live, path@) && ino == model::number_at(
                    self@.live,
                    path@,
                ) && ino < self@.next_ino,
                None => !model::file_exists(self@.live, path@),
            },
    {
        match self.live.node(path) {
            Some(Node::File(ino)) => {
                proof {
                    assert(self@.live.nodes.contains_key(path@));
                    assert(self@.live.files.contains_key(*ino));
                }
                Some(*ino)
            },
            _ => None,
        }
    }

    /// The file with the number.
    pub(crate) fn file_data(&self, ino: u64) -> (r: Option<&FileData>)
        requires
            self.wf(),
        ensures
            r is Some == (ino < self@.next_ino),
            r matches Some(f) ==> f@ == self@.live.files[ino] && f.content@.len() <= isize::MAX,
    {
        self.live.file(ino)
    }

    /// The length of the file with the number.
    pub fn file_len(&self, ino: u64) -> (r: u64)
        requires
            self.wf(),
            ino < self@.next_ino,
        ensures
            r == self@.live.files[ino].content.len(),
            r <= isize::MAX,
    {
        match self.live.file(ino) {
            Some(file) => file.content.len() as u64,
            None => 0,
        }
    }

    /// Reads the bytes of the file with the number from `offset` on into `buf`, as many as
    /// there are and as fit, and returns how many. The rest of `buf` stays.
    pub fn read_file(&self, ino: u64, buf: &mut [u8], offset: u64) -> (n: usize)
        requires
            self.wf(),
            ino < self@.next_ino,
        ensures
            n == model::read_len(self@.live.files[ino].content, offset, old(buf)@.len()),
            n <= old(buf)@.len(),
            final(buf)@ == model::read_bytes(
                self@.live.files[ino].content,
                offset,
                old(buf)@.len(),
            ) + old(buf)@.skip(n as int),
    {
        let ghost content = self@.live.files[ino].content;
        let ghost bytes = model::read_bytes(content, offset, old(buf)@.len());
        let room: usize = buf.len();
        let len: u64 = self.file_len(ino);
        if offset >= len {
            proof {
                assert(bytes + old(buf)@.skip(0) =~= old(buf)@);
            }
            return 0;
        }
        let available: usize = (len - offset) as usize;
        let to_read: usize = if room < available {
            room
        } else {
            available
        };
        if let Some(file) = self.live.file(ino) {
            copy_into(buf, 0, &file.content, offset as usize, to_read);
        }
        proof {
            assert(buf@ =~= bytes + old(buf)@.skip(to_read as int));
        }
        to_read
    }

    /// Changes the disk that survives a crash by the operation.
    fn apply_op_to_persisted(&mut self, op: &PendingOp)
        requires
            model::parts_wf(old(self)@),
            model::op_fits(op@),
            model::op_known(op@, old(self)@.next_ino),
        ensures
            model::parts_wf(final(self)@),
            final(self)@ == (FsView {
                persisted: model::apply(old(self)@.persisted, op@),
                ..old(self)@
            }),
            final(self).cache_wf() == old(self).cache_wf(),
    {
        proof {
            lemma_applied_wf(self@.persisted, op@, self@.next_ino, self@.next_ino);
        }
        self.persisted.apply(op);
    }

    /// Makes the bytes and the length of the file with the number durable.
    pub fn flush_file_data(&mut self, ino: u64)
        requires
            old(self).wf(),
            ino < old(self)@.next_ino,
        ensures
            final(self).wf(),
            final(self)@ == model::file_synced(old(self)@, ino),
    {
        let ghost before = self@;
        if let Some(file) = self.live.file(ino) {
            let copy = file.duplicate();
            self.persisted.put_file(ino, copy);
        }
        let mut ops: Vec<PendingOp> = Vec::new();
        std::mem::swap(&mut ops, &mut self.pending);
        let mut to_keep: Vec<PendingOp> = Vec::new();
        let ghost all = ops@;
        let ghost views = ops_view(all);
        proof {
            lemma_take_all(views);
            reveal(Seq::filter);
            assert(views =~= before.pending);
        }
        for op in it: ops.into_iter()
            invariant
                it.seq() == all,
                views == ops_view(all),
                ops_view(to_keep@) == model::not_data_ops(views.take(it.index() as int), ino),
        {
            proof {
                lemma_take(views, it.index() as int);
                reveal(Seq::filter);
                assert(views[it.index() as int] == op@);
            }
            let data = match &op {
                PendingOp::Write { ino: n, .. } => *n == ino,
                PendingOp::SetLen { ino: n, .. } => *n == ino,
                _ => false,
            };
            let ghost kept = to_keep@;
            if !data {
                to_keep.push(op);
                proof {
                    assert(ops_view(to_keep@) =~= ops_view(kept).push(op@));
                }
            }
        }
        proof {
            lemma_take_all(views);
        }
        self.pending = to_keep;
        proof {
            assert(self@ =~= model::file_synced(before, ino));
            lemma_file_synced_wf(before, ino);
        }
    }

    /// Makes the data of the file at `path` durable: its bytes and its length.
    ///
    /// The directory entry of the file is left alone. A new file survives a crash only if
    /// its directory has been synced too.
    pub fn sync_file(&mut self, path: &PathBuf) -> (r: Result<(), Cause>)
        requires
            old(self).wf(),
        ensures
            final(self).wf(),
            match r {
                Ok(_) => model::file_exists(old(self)@.live, path@) && final(self)@
                    == model::file_synced(old(self)@, model::number_at(old(self)@.live, path@)),
                Err(cause) => !model::file_exists(old(self)@.live, path@) && cause
                    == Cause::NoSuchEntry && final(self)@ == old(self)@,
            },
    {
        match self.file_number(path) {
            Some(ino) => {
                self.flush_file_data(ino);
                Ok(())
            },
            None => Err(Cause::NoSuchEntry),
        }
    }

    /// Makes the bytes and the length of the file at `path` durable, but not its creation.
    ///
    /// The file has no durable entry until its directory is synced.
    pub fn sync_file_data(&mut self, path: &PathBuf) -> (r: Result<(), Cause>)
        requires
            old(self).wf(),
        ensures
            final(self).wf(),
            match r {
                Ok(_) => model::file_exists(old(self)@.live, path@) && final(self)@
                    == model::file_synced(old(self)@, model::number_at(old(self)@.live, path@)),
                Err(cause) => !model::file_exists(old(self)@.live, path@) && cause
                    == Cause::NoSuchEntry && final(self)@ == old(self)@,
            },
    {
        self.sync_file(path)
    }

    /// Makes the directory at `path` and its entries durable: what was created in it, removed
    /// from it, or renamed into or out of it, and its own creation. Where that changes its
    /// durable entries, the durable directory is modified now.
    ///
    /// The data of its files is not made durable, nor are permission bits that were changed.
    /// What programs see stays as it is.
    pub fn sync_dir(&mut self, path: &PathBuf, time: Duration) -> (r: Result<(), Cause>)
        requires
            old(self).wf(),
        ensures
            final(self).wf(),
            match r {
                Ok(_) => model::dir_exists(old(self)@.live, path@) && final(self)@
                    == model::dir_synced(old(self)@, path@, time),
                Err(cause) => !model::dir_exists(old(self)@.live, path@) && cause
                    == Cause::NoSuchEntry && final(self)@ == old(self)@,
            },
    {
        if !self.dir_exists(path) {
            return Err(Cause::NoSuchEntry);
        }
        let ghost before = self@;
        let mut ops: Vec<PendingOp> = Vec::new();
        std::mem::swap(&mut ops, &mut self.pending);
        let mut to_keep: Vec<PendingOp> = Vec::new();
        let mut dir_modified = false;
        let ghost all = ops@;
        let ghost views = ops_view(all);
        proof {
            lemma_take_all(views);
            reveal(Seq::filter);
            assert(views =~= before.pending);
            assert(self@.pending =~= Seq::empty());
        }
        for op in it: ops.into_iter()
            invariant
                it.seq() == all,
                views == ops_view(all),
                forall|i: int|
                    0 <= i < views.len() ==> model::op_fits(#[trigger] views[i]) && model::op_known(
                        views[i],
                        before.next_ino,
                    ),
                ops_view(to_keep@) == model::not_entry_ops(views.take(it.index() as int), path@),
                dir_modified == model::has_changes_of(views.take(it.index() as int), path@),
                model::parts_wf(self@),
                self.cache_wf(),
                self@ == (FsView {
                    persisted: model::entries_flushed(
                        before.persisted,
                        views.take(it.index() as int),
                        path@,
                    ),
                    pending: Seq::empty(),
                    ..before
                }),
        {
            proof {
                lemma_take(views, it.index() as int);
                lemma_has_changes(views, it.index() as int, path@);
                reveal(Seq::filter);
                assert(views[it.index() as int] == op@);
            }
            if changes_entries(&op, path) {
                dir_modified = true;
            }
            let ghost kept = to_keep@;
            if is_entry_op(&op, path) {
                self.apply_op_to_persisted(&op);
            } else {
                to_keep.push(op);
                proof {
                    assert(ops_view(to_keep@) =~= ops_view(kept).push(op@));
                }
            }
        }
        proof {
            lemma_take_all(views);
        }
        self.pending = to_keep;
        self.persisted.take_dir(&self.live, path);
        if dir_modified {
            self.persisted.stamp_dir(path, time);
        }
        proof {
            lemma_dir_synced_wf(before, path@, time);
            assert(self@ =~= model::dir_synced(before, path@, time));
        }
        Ok(())
    }

    /// The bytes of all files that have a name.
    pub fn used_bytes(&self) -> (r: u128)
        requires
            self.wf(),
        ensures
            r == model::used_bytes(self@),
            r <= 0x7fff_ffff_ffff_ffff_ffff_ffff_ffff_ffff,
    {
        let mut total: u128 = 0;
        let mut ino: u64 = 0;
        proof {
            lemma_product(0);
        }
        while ino < self.next_ino
            invariant
                ino <= self.next_ino,
                self.wf(),
                total == model::used_below(self@.live, ino as nat),
                total <= ino * isize::MAX,
            decreases self.next_ino - ino,
        {
            proof {
                lemma_product(ino as nat);
                lemma_product(ino as nat + 1);
            }
            if self.live.is_named(ino) {
                total += self.file_len(ino) as u128;
            }
            ino += 1;
        }
        proof {
            lemma_product(ino as nat);
        }
        total
    }

    /// Whether so many bytes more fit on the disk.
    pub fn check_space(&self, additional_bytes: u64) -> (r: Result<(), Cause>)
        requires
            self.wf(),
        ensures
            r == (if model::exceeds(self@, additional_bytes) {
                Err::<(), Cause>(Cause::NoSpace)
            } else {
                Ok(())
            }),
    {
        if let Some(cap) = self.config.capacity {
            let used: u128 = self.used_bytes();
            let largest: u128 = 0xffff_ffff_ffff_ffff;
            let sum: u128 = if used > largest - additional_bytes as u128 {
                largest
            } else {
                used + additional_bytes as u128
            };
            if sum > cap as u128 {
                return Err(Cause::NoSpace);
            }
        }
        Ok(())
    }

    /// Writes to the disk that survives a crash what the crash leaves of the pending writes,
    /// when `blocks[i]` blocks of the `i`th pending operation get through.
    ///
    /// Only writes to files with durable names leave anything.
    fn apply_torn_writes(&mut self, block_size: u64, blocks: &Vec<u64>)
        requires
            old(self).wf(),
            block_size > 0,
            model::valid_tear(old(self)@.pending, block_size, blocks@),
        ensures
            model::parts_wf(final(self)@),
            final(self).cache_wf(),
            final(self)@ == (FsView {
                persisted: model::torn(
                    old(self)@.persisted,
                    old(self)@.pending,
                    block_size,
                    blocks@,
                ),
                ..old(self)@
            }),
    {
        let ghost before = self@;
        let mut i: usize = 0;
        proof {
            lemma_take_all(before.pending);
        }
        while i < self.pending.len()
            invariant
                i <= self.pending.len(),
                model::parts_wf(self@),
                self.cache_wf(),
                block_size > 0,
                model::valid_tear(before.pending, block_size, blocks@),
                self@ == (FsView {
                    persisted: model::torn(
                        before.persisted,
                        before.pending.take(i as int),
                        block_size,
                        blocks@,
                    ),
                    ..before
                }),
            decreases self.pending.len() - i,
        {
            proof {
                lemma_take(before.pending, i as int);
                assert(model::op_fits(self@.pending[i as int]));
                assert(self@.pending[i as int] == self.pending@[i as int]@);
            }
            let survivor: Option<PendingOp> = match &self.pending[i] {
                PendingOp::Write { ino, offset, data, time } => {
                    if data.len() > 0 && blocks[i] > 0 && self.persisted.is_named(*ino) {
                        proof {
                            lemma_block_product(blocks@[i as int], block_size);
                        }
                        let whole: u128 = blocks[i] as u128 * block_size as u128;
                        let survived: usize = if whole < data.len() as u128 {
                            whole as usize
                        } else {
                            data.len()
                        };
                        let part: Vec<u8> = vstd::slice::slice_to_vec(
                            vstd::slice::slice_subrange(data.as_slice(), 0, survived),
                        );
                        proof {
                            assert(part@ =~= data@.take(survived as int));
                        }
                        Some(
                            PendingOp::Write {
                                ino: *ino,
                                offset: *offset,
                                data: part,
                                time: *time,
                            },
                        )
                    } else {
                        None
                    }
                },
                _ => None,
            };
            if let Some(op) = survivor {
                self.apply_op_to_persisted(&op);
            }
            i += 1;
        }
        proof {
            lemma_take_all(before.pending);
        }
    }

    /// Draws for every pending write how many of its blocks a crash lets through.
    fn draw_survivors(&self, block_size: u64, rng: &mut SmallRng) -> (r: Vec<u64>)
        requires
            block_size > 0,
        ensures
            model::valid_tear(self@.pending, block_size, r@),
    {
        let mut blocks: Vec<u64> = Vec::new();
        let mut i: usize = 0;
        while i < self.pending.len()
            invariant
                i <= self.pending.len(),
                block_size > 0,
                blocks@.len() == i,
                forall|j: int|
                    0 <= j < i ==> (#[trigger] self@.pending[j] matches OpView::Write { data, .. }
                        ==> blocks@[j] <= model::block_count(data.len(), block_size)),
            decreases self.pending.len() - i,
        {
            let survivors: u64 = match &self.pending[i] {
                PendingOp::Write { ino, data, .. } => {
                    if data.len() > 0 && self.persisted.is_named(*ino) {
                        proof {
                            lemma_block_count(data@.len(), block_size);
                        }
                        let total: u64 = (data.len() as u64 - 1) / block_size + 1;
                        random_up_to(rng, total as usize) as u64
                    } else {
                        0
                    }
                },
                _ => 0,
            };
            blocks.push(survivors);
            i += 1;
        }
        blocks
    }

    /// Crashes: what programs see becomes what is durable. Where writes can tear, `blocks[i]`
    /// blocks of the `i`th pending operation get through first.
    pub fn discard_pending_with(&mut self, blocks: &Vec<u64>)
        requires
            old(self).wf(),
            old(self)@.config.block_size matches Some(block) ==> model::valid_tear(
                old(self)@.pending,
                block,
                blocks@,
            ),
        ensures
            final(self).wf(),
            final(self)@ == model::crashed(old(self)@, blocks@),
    {
        if let Some(block_size) = self.config.block_size {
            self.apply_torn_writes(block_size, blocks);
        }
        self.pending = Vec::new();
        self.live = self.persisted.duplicate(self.next_ino);
        proof {
            assert(self@.pending =~= Seq::empty());
        }
    }

    /// Crashes: what programs see becomes what is durable. Where writes can tear, chance
    /// decides how much of each pending write gets through first.
    pub fn discard_pending(&mut self, rng: &mut SmallRng)
        requires
            old(self).wf(),
        ensures
            final(self).wf(),
            exists|blocks: Seq<u64>|
                #![trigger model::crashed(old(self)@, blocks)]
                (old(self)@.config.block_size matches Some(block) ==> model::valid_tear(
                    old(self)@.pending,
                    block,
                    blocks,
                )) && final(self)@ == model::crashed(old(self)@, blocks),
    {
        let blocks: Vec<u64> = match self.config.block_size {
            Some(block_size) => self.draw_survivors(block_size, rng),
            None => Vec::new(),
        };
        self.discard_pending_with(&blocks);
    }

    /// The creation, modification and change times of the file at `path`.
    pub fn file_timestamps(&self, path: &PathBuf) -> (r: Option<Times>)
        requires
            self.wf(),
        ensures
            r == model::file_times(self@.live, path@),
    {
        match self.file_number(path) {
            Some(ino) => match self.live.file(ino) {
                Some(f) => Some((f.crtime, f.mtime, f.ctime)),
                None => None,
            },
            None => None,
        }
    }

    /// The creation, modification and change times of the directory at `path`.
    pub fn dir_timestamps(&self, path: &PathBuf) -> (r: Option<Times>)
        ensures
            r == model::dir_times(self@.live, path@),
    {
        match self.live.node(path) {
            Some(Node::Dir(d)) => Some((d.crtime, d.mtime, d.ctime)),
            _ => None,
        }
    }

    /// The creation, modification and change times of the symbolic link at `path`.
    pub fn symlink_timestamps(&self, path: &PathBuf) -> (r: Option<Times>)
        ensures
            r == model::symlink_times(self@.live, path@),
    {
        match self.live.node(path) {
            Some(Node::Symlink(l)) => Some((l.crtime, l.mtime, l.ctime)),
            _ => None,
        }
    }

    /// The permission bits of the file at `path`.
    pub fn file_mode(&self, path: &PathBuf) -> (r: Option<u32>)
        requires
            self.wf(),
        ensures
            r == model::file_mode(self@.live, path@),
    {
        match self.file_number(path) {
            Some(ino) => match self.live.file(ino) {
                Some(f) => Some(f.mode),
                None => None,
            },
            None => None,
        }
    }

    /// The permission bits of the directory at `path`.
    pub fn dir_mode(&self, path: &PathBuf) -> (r: Option<u32>)
        ensures
            r == model::dir_mode(self@.live, path@),
    {
        match self.live.node(path) {
            Some(Node::Dir(d)) => Some(d.mode),
            _ => None,
        }
    }

    /// How many names the file with the number has.
    pub fn file_nlink(&self, ino: u64) -> (r: u64)
        ensures
            r == model::names_of(self@.live, ino).len(),
    {
        self.live.nlink(ino)
    }

    /// The text of the path that the symbolic link at `path` points to.
    pub fn read_link(&self, path: &PathBuf) -> (r: Result<Vec<u8>, Cause>)
        ensures
            match r {
                Ok(target) => model::read_link(self@.live, path@) == Some(target@),
                Err(cause) => model::read_link(self@.live, path@) is None && cause
                    == Cause::NoSuchEntry,
            },
    {
        match self.live.node(path) {
            Some(Node::Symlink(link)) => Ok(bytes_copy(&link.target)),
            _ => Err(Cause::NoSuchEntry),
        }
    }

    /// Whether anything stands directly in the directory.
    pub fn dir_has_children(&self, path: &PathBuf) -> (r: bool)
        ensures
            r == model::has_children(self@.live, path@),
    {
        self.live.has_children(path)
    }

    /// The paths of what stands directly in the directory, each once, in no particular order.
    pub fn dir_entries(&self, path: &PathBuf) -> (r: Vec<PathBuf>)
        ensures
            disk::is_distinct(r@),
            forall|p: PathView| #[trigger]
                crate::collections::lists(r@, p) <==> model::anything_at(self@.live, p)
                    && path::is_child(p, path@),
    {
        self.live.children(path)
    }

    /// Carries an operation out.
    pub(crate) fn push(&mut self, op: PendingOp)
        requires
            old(self).wf(),
            op_valid(old(self)@, op@),
        ensures
            final(self).wf(),
            final(self)@ == model::pushed(old(self)@, op@),
    {
        proof {
            lemma_pushed_wf(self@, op@);
        }
        self.live.carry_out(&op);
        if let PendingOp::CreateFile { ino, time, mode, .. } = &op {
            self.persisted.put_file(*ino, FileData::with_mode(*time, *mode));
            self.next_ino = *ino + 1;
        }
        self.pending.push(op);
        proof {
            assert(self@.pending =~= old(self)@.pending.push(op@));
        }
    }

    /// Drops the cached pages of the file at `path`.
    fn uncache(&mut self, path: &PathBuf)
        requires
            old(self).wf(),
        ensures
            final(self).wf(),
            final(self)@ == model::uncached(old(self)@, path@),
    {
        if let Some(cache) = &mut self.page_cache {
            cache.invalidate_file(path);
        }
    }

    /// Removes the directory with all that stands below it.
    pub fn remove_tree(&mut self, path: &PathBuf, time: Duration) -> (r: Result<(), Cause>)
        requires
            old(self).wf(),
        ensures
            final(self).wf(),
            match r {
                Ok(_) => model::dir_exists(old(self)@.live, path@) && final(self)@
                    == model::pushed(
                    model::uncached_tree(old(self)@, path@),
                    OpView::RemoveTree { path: path@, time },
                ),
                Err(cause) => !model::dir_exists(old(self)@.live, path@) && cause
                    == Cause::DirectoryNotFound && final(self)@ == old(self)@,
            },
    {
        if !self.dir_exists(path) {
            return Err(Cause::DirectoryNotFound);
        }
        if let Some(cache) = &mut self.page_cache {
            cache.invalidate_tree(path);
        }
        self.push(PendingOp::RemoveTree { path: path.clone(), time });
        Ok(())
    }

    /// Creates a directory with the default permission bits.
    pub fn mkdir(&mut self, path: &PathBuf, time: Duration) -> (r: Result<(), Cause>)
        requires
            old(self).wf(),
        ensures
            final(self).wf(),
            r == model::mkdir_result(old(self)@, path@),
            final(self)@ == (if r is Ok {
                model::pushed(
                    old(self)@,
                    OpView::CreateDir { path: path@, time, mode: DIR_MODE },
                )
            } else {
                old(self)@
            }),
    {
        self.mkdir_with_mode(path, time, DIR_MODE)
    }

    /// Creates a directory with the given permission bits.
    pub fn mkdir_with_mode(&mut self, path: &PathBuf, time: Duration, mode: u32) -> (r: Result<
        (),
        Cause,
    >)
        requires
            old(self).wf(),
        ensures
            final(self).wf(),
            r == model::mkdir_result(old(self)@, path@),
            final(self)@ == (if r is Ok {
                model::pushed(old(self)@, OpView::CreateDir { path: path@, time, mode })
            } else {
                old(self)@
            }),
    {
        if !self.parent_exists(path) {
            return Err(Cause::NoSuchEntry);
        }
        if self.anything_at(path) {
            return Err(Cause::EntryExists);
        }
        self.push(PendingOp::CreateDir { path: path.clone(), time, mode });
        Ok(())
    }

    /// Removes an empty directory.
    pub fn rmdir(&mut self, path: &PathBuf, time: Duration) -> (r: Result<(), Cause>)
        requires
            old(self).wf(),
        ensures
            final(self).wf(),
            r == model::rmdir_result(old(self)@, path@),
            final(self)@ == (if r is Ok {
                model::pushed(old(self)@, OpView::RemoveDir { path: path@, time })
            } else {
                old(self)@
            }),
    {
        if !self.dir_exists(path) {
            return Err(Cause::NoSuchEntry);
        }
        if self.dir_has_children(path) {
            return Err(Cause::DirectoryNotEmpty);
        }
        self.push(PendingOp::RemoveDir { path: path.clone(), time });
        Ok(())
    }

    /// Removes a file or symbolic link.
    pub fn unlink(&mut self, path: &PathBuf, time: Duration) -> (r: Result<(), Cause>)
        requires
            old(self).wf(),
        ensures
            final(self).wf(),
            r == model::unlink_result(old(self)@, path@),
            final(self)@ == (if r is Ok {
                model::pushed(
                    model::uncached(old(self)@, path@),
                    OpView::RemoveFile { path: path@, time },
                )
            } else {
                old(self)@
            }),
    {
        if !self.file_exists(path) && !self.symlink_exists(path) {
            return Err(Cause::NoSuchEntry);
        }
        self.uncache(path);
        self.push(PendingOp::RemoveFile { path: path.clone(), time });
        Ok(())
    }

    /// Renames a file, directory or symbolic link, with all that stands below it. What stood
    /// at the new path is replaced.
    pub fn rename(&mut self, from: &PathBuf, to: &PathBuf, time: Duration) -> (r: Result<
        (),
        Cause,
    >)
        requires
            old(self).wf(),
        ensures
            final(self).wf(),
            r == model::rename_result(old(self)@, from@, to@),
            final(self)@ == (if r is Ok {
                model::renamed(old(self)@, from@, to@, time)
            } else {
                old(self)@
            }),
    {
        if !self.parent_exists(to) || !self.anything_at(from) {
            return Err(Cause::NoSuchEntry);
        }
        if from.same(to) {
            return Ok(());
        }
        if self.dir_exists(from) {
            if self.file_exists(to) || self.symlink_exists(to) {
                return Err(Cause::NotDirectory);
            }
            if self.dir_exists(to) && self.dir_has_children(to) {
                return Err(Cause::DirectoryNotEmpty);
            }
        } else if self.dir_exists(to) {
            return Err(Cause::IsDirectory);
        }
        if to.is_within(from) {
            return Err(Cause::IntoItself);
        }
        if from.is_within(to) {
            return Err(Cause::DirectoryNotEmpty);
        }
        self.push(PendingOp::Rename { from: from.clone(), to: to.clone(), time });
        Ok(())
    }

    /// Writes bytes to the file with the number. Writing nothing leaves no trace.
    pub fn write_file(&mut self, ino: u64, offset: u64, data: &[u8], time: Duration)
        requires
            old(self).wf(),
            ino < old(self)@.next_ino,
            offset + data@.len() <= isize::MAX,
        ensures
            final(self).wf(),
            final(self)@ == (if data@.len() == 0 {
                old(self)@
            } else {
                model::pushed(old(self)@, OpView::Write { ino, offset, data: data@, time })
            }),
    {
        if data.len() > 0 {
            let bytes: Vec<u8> = vstd::slice::slice_to_vec(data);
            self.push(PendingOp::Write { ino, offset, data: bytes, time });
        }
    }

    /// Cuts or extends the file with the number, which was opened with `path`.
    pub fn set_file_len(&mut self, ino: u64, path: &PathBuf, len: u64, time: Duration)
        requires
            old(self).wf(),
            ino < old(self)@.next_ino,
            len <= isize::MAX,
        ensures
            final(self).wf(),
            final(self)@ == model::pushed(
                model::uncached(old(self)@, path@),
                OpView::SetLen { ino, len, time },
            ),
    {
        self.uncache(path);
        self.push(PendingOp::SetLen { ino, len, time });
    }

    /// Creates a file with the default permission bits and returns its number. A file that
    /// stands there already stays as it is.
    pub fn create_file(&mut self, path: &PathBuf, time: Duration) -> (ino: u64)
        requires
            old(self).wf(),
            old(self)@.next_ino < u64::MAX,
        ensures
            final(self).wf(),
            (final(self)@, ino) == created(old(self)@, path@, time, FILE_MODE),
    {
        self.create_file_with_mode(path, time, FILE_MODE)
    }

    /// Creates a file with the given permission bits and returns its number. A file that
    /// stands there already stays as it is.
    pub fn create_file_with_mode(&mut self, path: &PathBuf, time: Duration, mode: u32) -> (ino: u64)
        requires
            old(self).wf(),
            old(self)@.next_ino < u64::MAX,
        ensures
            final(self).wf(),
            (final(self)@, ino) == created(old(self)@, path@, time, mode),
    {
        match self.file_number(path) {
            Some(ino) => ino,
            None => {
                let ino: u64 = self.next_ino;
                self.push(PendingOp::CreateFile { path: path.clone(), ino, time, mode });
                ino
            },
        }
    }

    /// Creates a symbolic link to the path with the text `target`.
    pub fn create_symlink(&mut self, path: &PathBuf, target: &[u8], time: Duration) -> (r: Result<
        (),
        Cause,
    >)
        requires
            old(self).wf(),
        ensures
            final(self).wf(),
            r == model::mkdir_result(old(self)@, path@),
            final(self)@ == (if r is Ok {
                model::pushed(
                    old(self)@,
                    OpView::CreateSymlink { path: path@, target: target@, time },
                )
            } else {
                old(self)@
            }),
    {
        if !self.parent_exists(path) {
            return Err(Cause::NoSuchEntry);
        }
        if self.anything_at(path) {
            return Err(Cause::EntryExists);
        }
        let bytes: Vec<u8> = vstd::slice::slice_to_vec(target);
        self.push(PendingOp::CreateSymlink { path: path.clone(), target: bytes, time });
        Ok(())
    }

    /// Makes `path` a second name of the file at `target`.
    pub fn create_hard_link(&mut self, path: &PathBuf, target: &PathBuf, time: Duration) -> (r:
        Result<(), Cause>)
        requires
            old(self).wf(),
        ensures
            final(self).wf(),
            r == model::hard_link_result(old(self)@, path@, target@),
            final(self)@ == (if r is Ok {
                model::pushed(
                    old(self)@,
                    OpView::CreateHardLink {
                        path: path@,
                        ino: model::number_at(old(self)@.live, target@),
                        time,
                    },
                )
            } else {
                old(self)@
            }),
    {
        if !self.parent_exists(path) {
            return Err(Cause::NoSuchEntry);
        }
        match self.file_number(target) {
            None => Err(Cause::NoSuchEntry),
            Some(ino) => {
                if self.anything_at(path) {
                    return Err(Cause::EntryExists);
                }
                self.push(PendingOp::CreateHardLink { path: path.clone(), ino, time });
                Ok(())
            },
        }
    }

    /// Changes the permission bits of a file or directory.
    pub fn set_permissions(&mut self, path: &PathBuf, mode: u32, time: Duration) -> (r: Result<
        (),
        Cause,
    >)
        requires
            old(self).wf(),
        ensures
            final(self).wf(),
            r == model::set_permissions_result(old(self)@, path@),
            final(self)@ == (if r is Ok {
                model::pushed(
                    old(self)@,
                    OpView::SetPermissions { path: path@, mode, time },
                )
            } else {
                old(self)@
            }),
    {
        if !self.file_exists(path) && !self.dir_exists(path) {
            return Err(Cause::NoSuchEntry);
        }
        self.push(PendingOp::SetPermissions { path: path.clone(), mode, time });
        Ok(())
    }

    /// Hands out a descriptor that no open file has.
    pub fn alloc_fd(&mut self) -> (fd: u64)
        requires
            old(self).wf(),
            old(self)@.next_fd < u64::MAX,
        ensures
            final(self).wf(),
            fd == old(self)@.next_fd,
            !old(self)@.handles.contains_key(fd),
            final(self)@ == (FsView { next_fd: (fd + 1) as u64, ..old(self)@ }),
    {
        let fd: u64 = self.next_fd;
        self.next_fd = fd + 1;
        fd
    }

    /// Opens the file with the number by `path` and hands out a descriptor.
    pub fn open_handle(&mut self, ino: u64, path: PathBuf) -> (fd: u64)
        requires
            old(self).wf(),
            old(self)@.next_fd < u64::MAX,
            ino < old(self)@.next_ino,
        ensures
            final(self).wf(),
            fd == old(self)@.next_fd,
            final(self)@ == (FsView {
                next_fd: (fd + 1) as u64,
                handles: old(self)@.handles.insert(fd, HandleView { ino, path: path@ }),
                ..old(self)@
            }),
    {
        let fd: u64 = self.alloc_fd();
        let _ = self.open_handles.insert(fd, Handle { ino, path });
        fd
    }

    /// Whether a descriptor and a number are left for a further file.
    pub fn has_descriptor(&self) -> (r: bool)
        ensures
            r == model::has_numbers(self@),
    {
        self.next_fd < 0xffff_ffff_ffff_ffff && self.next_ino < 0xffff_ffff_ffff_ffff
    }

    /// Whether so many descriptors, and a number, are left for further files.
    pub fn has_descriptors(&self, count: u64) -> (r: bool)
        ensures
            r == (self@.next_fd + count <= u64::MAX && self@.next_ino < u64::MAX),
    {
        self.next_fd <= 0xffff_ffff_ffff_ffff - count && self.next_ino < 0xffff_ffff_ffff_ffff
    }

    /// The open file with the descriptor.
    pub fn handle(&self, fd: u64) -> (r: Option<&Handle>)
        requires
            self.wf(),
        ensures
            match r {
                Some(h) => self@.handles.contains_key(fd) && h@ == self@.handles[fd] && h.ino
                    < self@.next_ino,
                None => !self@.handles.contains_key(fd),
            },
    {
        self.open_handles.get(fd)
    }

    /// Closes the file with the descriptor.
    pub fn close_handle(&mut self, fd: u64)
        requires
            old(self).wf(),
        ensures
            final(self).wf(),
            final(self)@ == (FsView { handles: old(self)@.handles.remove(fd), ..old(self)@ }),
    {
        let _ = self.open_handles.swap_remove(fd);
    }

    /// What the buffers, offsets and lengths of unbuffered input and output are multiples
    /// of.
    pub fn direct_io_alignment(&self) -> (r: usize)
        requires
            self.wf(),
        ensures
            r == self@.config.direct_io_alignment,
            r > 0,
    {
        self.config.direct_io_alignment
    }

    /// The latency settings.
    pub fn io_latency(&self) -> (r: Option<IoLatency>)
        ensures
            r == self@.config.io_latency,
    {
        self.config.io_latency
    }

    /// The latency of an operation, when chance has scaled the span between the least and
    /// the largest latency to `scaled`. What is cached is read at the speed of memory, and
    /// without latency settings nothing takes time.
    pub fn calculate_latency(&self, cache_hit: bool, scaled: Duration) -> (r: Duration)
        requires
            self.wf(),
            self@.config.io_latency matches Some(l) ==> l.min_latency.nanos + scaled.nanos
                <= u128::MAX,
        ensures
            r == model::latency(self@.config, cache_hit, scaled),
    {
        match self.config.io_latency {
            Some(l) => {
                if cache_hit && self.page_cache.is_some() {
                    Duration::from_nanos(100)
                } else {
                    l.min_latency.plus(scaled)
                }
            },
            None => Duration::zero(),
        }
    }

    /// The latency of an operation on no page in particular.
    pub fn apply_io_latency(&self, scaled: Duration) -> (r: Duration)
        requires
            self.wf(),
            self@.config.io_latency matches Some(l) ==> l.min_latency.nanos + scaled.nanos
                <= u128::MAX,
        ensures
            r == model::latency(self@.config, false, scaled),
    {
        self.calculate_latency(false, scaled)
    }

    /// The latency of a read at `offset`, and what it leaves in the cache: the page that
    /// was read, most recent. Unbuffered reads bypass the cache. Chance has decided whether
    /// to `evict` the page first.
    pub fn apply_read_latency(
        &mut self,
        path: &PathBuf,
        offset: u64,
        direct_io: bool,
        evict: bool,
        scaled: Duration,
    ) -> (r: Duration)
        requires
            old(self).wf(),
            old(self)@.config.io_latency matches Some(l) ==> l.min_latency.nanos + scaled.nanos
                <= u128::MAX,
        ensures
            final(self).wf(),
            r == model::latency(
                old(self)@.config,
                model::read_hits(old(self)@, path@, offset, direct_io, evict),
                scaled,
            ),
            final(self)@ == (if direct_io {
                old(self)@
            } else {
                model::cached(
                    model::looked_up(old(self)@, path@, offset, evict),
                    path@,
                    offset,
                )
            }),
    {
        let mut hit = false;
        if !direct_io {
            if let Some(cache) = &mut self.page_cache {
                hit = cache.access(path, offset, evict);
                cache.insert(path, offset);
            }
        }
        self.calculate_latency(hit, scaled)
    }

    /// The latency of a write at `offset`, and what it leaves in the cache: the page that
    /// was written, most recent. Unbuffered writes bypass the cache. Writes go through to
    /// the disk, so they always take the full latency.
    pub fn apply_write_latency(
        &mut self,
        path: &PathBuf,
        offset: u64,
        direct_io: bool,
        scaled: Duration,
    ) -> (r: Duration)
        requires
            old(self).wf(),
            old(self)@.config.io_latency matches Some(l) ==> l.min_latency.nanos + scaled.nanos
                <= u128::MAX,
        ensures
            final(self).wf(),
            r == model::latency(old(self)@.config, false, scaled),
            final(self)@ == (if direct_io {
                old(self)@
            } else {
                model::cached(old(self)@, path@, offset)
            }),
    {
        if !direct_io {
            if let Some(cache) = &mut self.page_cache {
                cache.insert(path, offset);
            }
        }
        self.calculate_latency(false, scaled)
    }
}

/// The filesystem once a file has been created at `path` unless one stands there, and the
/// number of the file.
pub open spec fn created(fs: FsView, path: PathView, time: Duration, mode: u32) -> (FsView, u64) {
    if model::file_exists(fs.live, path) {
        (fs, model::number_at(fs.live, path))
    } else {
        (
            model::pushed(fs, OpView::CreateFile { path, ino: fs.next_ino, time, mode }),
            fs.next_ino,
        )
    }
}

/// Whether the operation changes which entries the directory has.
fn changes_entries(op: &PendingOp, dir: &PathBuf) -> (r: bool)
    ensures
        r == model::changes_entries_of(op@, dir@),
{
    match op {
        PendingOp::CreateFile { path, .. } => path.is_in(dir),
        PendingOp::CreateDir { path, .. } => path.is_in(dir),
        PendingOp::CreateSymlink { path, .. } => path.is_in(dir),
        PendingOp::CreateHardLink { path, .. } => path.is_in(dir),
        PendingOp::Rename { from, to, .. } => from.is_in(dir) || to.is_in(dir),
        PendingOp::RemoveFile { path, .. } => path.is_in(dir),
        PendingOp::RemoveDir { path, .. } => path.is_in(dir),
        PendingOp::RemoveTree { path, .. } => path.is_in(dir),
        _ => false,
    }
}

/// Whether syncing the directory makes the operation durable.
fn is_entry_op(op: &PendingOp, dir: &PathBuf) -> (r: bool)
    ensures
        r == model::is_entry_op(op@, dir@),
{
    match op {
        PendingOp::CreateDir { path, .. } => path.same(dir) || path.is_in(dir),
        _ => changes_entries(op, dir),
    }
}

/// One more operation changes the entries of a directory where it does or one before it did.
proof fn lemma_has_changes(ops: Seq<OpView>, i: int, dir: PathView)
    requires
        0 <= i < ops.len(),
    ensures
        model::has_changes_of(ops.take(i + 1), dir) == (model::has_changes_of(ops.take(i), dir)
            || model::changes_entries_of(ops[i], dir)),
{
    let before = ops.take(i);
    let after = ops.take(i + 1);
    if model::has_changes_of(after, dir) {
        let k = choose|k: int|
            0 <= k < after.len() && model::changes_entries_of(#[trigger] after[k], dir);
        if k < i {
            assert(model::changes_entries_of(before[k], dir));
        }
    }
    if model::has_changes_of(before, dir) {
        let k = choose|k: int|
            0 <= k < before.len() && model::changes_entries_of(#[trigger] before[k], dir);
        assert(model::changes_entries_of(after[k], dir));
    }
    if model::changes_entries_of(ops[i], dir) {
        assert(model::changes_entries_of(after[i], dir));
    }
}

/// What is left of operations that fit and speak of files that there are does so too.
proof fn lemma_left_fits(ops: Seq<OpView>, keep: spec_fn(OpView) -> bool, next_ino: u64)
    requires
        forall|i: int|
            0 <= i < ops.len() ==> model::op_fits(#[trigger] ops[i]) && model::op_known(
                ops[i],
                next_ino,
            ),
    ensures
        forall|i: int|
            0 <= i < ops.filter(keep).len() ==> model::op_fits(#[trigger] ops.filter(keep)[i])
                && model::op_known(ops.filter(keep)[i], next_ino),
{
    let left = ops.filter(keep);
    assert forall|i: int| 0 <= i < left.len() implies model::op_fits(#[trigger] left[i])
        && model::op_known(left[i], next_ino) by {
        assert(left.contains(left[i]));
        ops.lemma_filter_contains_rev(keep, left[i]);
        let j = choose|j: int| 0 <= j < ops.len() && ops[j] == left[i];
        assert(model::op_fits(ops[j]));
    }
}

/// Operations that leave the bytes of a file alone can be left out for its bytes.
proof fn lemma_left_content(
    content: Seq<u8>,
    ops: Seq<OpView>,
    keep: spec_fn(OpView) -> bool,
    ino: u64,
)
    requires
        forall|op: OpView| #[trigger] model::is_data_of(op, ino) ==> keep(op),
    ensures
        model::content_after(content, ops.filter(keep), ino) == model::content_after(
            content,
            ops,
            ino,
        ),
    decreases ops.len(),
{
    reveal(Seq::filter);
    if ops.len() > 0 {
        lemma_left_content(content, ops.drop_last(), keep, ino);
        let rest = ops.drop_last().filter(keep);
        let op = ops.last();
        if keep(op) {
            assert(ops.filter(keep).drop_last() =~= rest);
        } else {
            assert(!model::is_data_of(op, ino));
        }
    }
}

/// Without operations on it, a file keeps its bytes.
proof fn lemma_untouched_content(content: Seq<u8>, ops: Seq<OpView>, ino: u64)
    ensures
        model::content_after(content, model::not_data_ops(ops, ino), ino) == content,
    decreases ops.len(),
{
    reveal(Seq::filter);
    if ops.len() > 0 {
        lemma_untouched_content(content, ops.drop_last(), ino);
        let rest = model::not_data_ops(ops.drop_last(), ino);
        let left = model::not_data_ops(ops, ino);
        if !model::is_data_of(ops.last(), ino) {
            assert(left.drop_last() =~= rest);
            assert(left.last() == ops.last());
        }
    }
}

/// Syncing a file leaves the filesystem in order.
proof fn lemma_file_synced_wf(fs: FsView, ino: u64)
    requires
        model::fs_wf(fs),
        ino < fs.next_ino,
    ensures
        model::fs_wf(model::file_synced(fs, ino)),
{
    let after = model::file_synced(fs, ino);
    let keep = |op: OpView| !model::is_data_of(op, ino);
    lemma_left_fits(fs.pending, keep, fs.next_ino);
    assert(fs.live.files.contains_key(ino));
    assert(fs.persisted.files.contains_key(ino));
    assert forall|p: PathView| #[trigger] after.persisted.nodes.contains_key(p) implies (
    after.persisted.nodes[p] matches NodeView::File(n) ==> after.persisted.files.contains_key(
        n,
    )) by {
        assert(fs.persisted.nodes.contains_key(p));
    }
    assert forall|n: u64| #[trigger] after.persisted.files.contains_key(n) implies
        after.persisted.files[n].content.len() <= isize::MAX by {
        assert(fs.persisted.files.contains_key(n));
    }
    assert forall|n: u64| #[trigger] after.live.files.contains_key(n) implies
        after.live.files[n].content == model::content_after(
        after.persisted.files[n].content,
        after.pending,
        n,
    ) by {
        assert(fs.live.files.contains_key(n));
        if n == ino {
            lemma_untouched_content(fs.live.files[ino].content, fs.pending, ino);
        } else {
            lemma_left_content(fs.persisted.files[n].content, fs.pending, keep, n);
        }
    }
}

/// Operations that syncing a directory makes durable leave a disk in order, and the bytes of
/// its files alone.
proof fn lemma_flushed(disk: DiskView, ops: Seq<OpView>, dir: PathView, next_ino: u64)
    requires
        model::disk_wf(disk, next_ino),
        forall|i: int|
            0 <= i < ops.len() ==> model::op_fits(#[trigger] ops[i]) && model::op_known(
                ops[i],
                next_ino,
            ),
    ensures
        model::disk_wf(model::entries_flushed(disk, ops, dir), next_ino),
        forall|ino: u64|
            disk.files.contains_key(ino) ==> (#[trigger] model::entries_flushed(
                disk,
                ops,
                dir,
            ).files[ino]).content == disk.files[ino].content,
    decreases ops.len(),
{
    if ops.len() > 0 {
        assert forall|i: int| 0 <= i < ops.drop_last().len() implies model::op_fits(
            #[trigger] ops.drop_last()[i],
        ) && model::op_known(ops.drop_last()[i], next_ino) by {
            assert(model::op_fits(ops[i]));
        }
        lemma_flushed(disk, ops.drop_last(), dir, next_ino);
        let before = model::entries_flushed(disk, ops.drop_last(), dir);
        let op = ops[ops.len() - 1];
        assert(model::op_fits(op));
        if model::is_entry_op(op, dir) {
            lemma_applied_wf(before, op, next_ino, next_ino);
        }
        assert forall|ino: u64| disk.files.contains_key(ino) implies (
        #[trigger] model::entries_flushed(disk, ops, dir).files[ino]).content
            == disk.files[ino].content by {
            assert(before.files[ino].content == disk.files[ino].content);
            assert(before.files.contains_key(ino));
        }
    }
}

/// Syncing a directory leaves the filesystem in order.
proof fn lemma_dir_synced_wf(fs: FsView, dir: PathView, time: Duration)
    requires
        model::fs_wf(fs),
    ensures
        model::fs_wf(model::dir_synced(fs, dir, time)),
{
    let after = model::dir_synced(fs, dir, time);
    let keep = |op: OpView| !model::is_entry_op(op, dir);
    lemma_flushed(fs.persisted, fs.pending, dir, fs.next_ino);
    lemma_left_fits(fs.pending, keep, fs.next_ino);
    let flushed = model::entries_flushed(fs.persisted, fs.pending, dir);
    assert forall|p: PathView| #[trigger] after.persisted.nodes.contains_key(p) implies (
    after.persisted.nodes[p] matches NodeView::File(ino) ==> after.persisted.files.contains_key(
        ino,
    )) by {
        if model::is_of_dir(p, dir) {
            assert(fs.live.nodes.contains_key(p));
            if let NodeView::File(ino) = fs.live.nodes[p] {
                assert(fs.live.files.contains_key(ino));
            }
        } else {
            assert(flushed.nodes.contains_key(p));
        }
    }
    assert forall|n: u64| #[trigger] after.live.files.contains_key(n) implies
        after.live.files[n].content == model::content_after(
        after.persisted.files[n].content,
        after.pending,
        n,
    ) by {
        assert(fs.live.files.contains_key(n));
        assert(fs.persisted.files.contains_key(n));
        assert(flushed.files[n].content == fs.persisted.files[n].content);
        lemma_left_content(fs.persisted.files[n].content, fs.pending, keep, n);
    }
}

proof fn lemma_block_product(blocks: u64, block: u64)
    ensures
        blocks * block <= u128::MAX,
{
    assert(blocks * block <= u128::MAX) by (nonlinear_arith)
        requires
            blocks <= 0xffff_ffff_ffff_ffff,
            block <= 0xffff_ffff_ffff_ffff,
    ;
}

proof fn lemma_block_count(len: nat, block: u64)
    requires
        0 < len <= usize::MAX,
        block > 0,
    ensures
        (len - 1) / (block as int) <= len - 1,
        (len - 1) / (block as int) + 1 == model::block_count(len, block),
        model::block_count(len, block) <= len,
{
    assert((len - 1) / (block as int) <= len - 1) by (nonlinear_arith)
        requires
            len > 0,
            block > 0,
    ;
}

proof fn lemma_product(n: nat)
    requires
        n <= 0x1_0000_0000_0000_0000,
    ensures
        0 <= n * isize::MAX <= 0x7fff_ffff_ffff_ffff_ffff_ffff_ffff_ffff,
        (n + 1) * isize::MAX == n * isize::MAX + isize::MAX,
{
    assert(n * isize::MAX <= 0x7fff_ffff_ffff_ffff_ffff_ffff_ffff_ffff) by (nonlinear_arith)
        requires
            n <= 0x1_0000_0000_0000_0000,
            isize::MAX <= 0x7fff_ffff_ffff_ffff,
            0 <= isize::MAX,
    ;
    assert(0 <= n * isize::MAX) by (nonlinear_arith)
        requires
            0 <= isize::MAX,
    ;
    assert((n + 1) * isize::MAX == n * isize::MAX + isize::MAX) by (nonlinear_arith);
}

/// Copies `len` bytes of `data` from `src` on into `buf` from `dst` on.
fn copy_into(buf: &mut [u8], dst: usize, data: &Vec<u8>, src: usize, len: usize)
    requires
        dst + len <= old(buf)@.len(),
        src + len <= data@.len(),
    ensures
        final(buf)@.len() == old(buf)@.len(),
        forall|j: int|
            0 <= j < old(buf)@.len() ==> #[trigger] final(buf)@[j] == (if dst <= j < dst + len {
                data@[src + j - dst]
            } else {
                old(buf)@[j]
            }),
{
    let room: usize = buf.len();
    let mut k: usize = 0;
    while k < len
        invariant
            k <= len,
            dst + len <= room,
            src + len <= data.len(),
            buf@.len() == room,
            room == old(buf)@.len(),
            forall|j: int|
                0 <= j < buf@.len() ==> #[trigger] buf@[j] == (if dst <= j < dst + k {
                    data@[src + j - dst]
                } else {
                    old(buf)@[j]
                }),
        decreases len - k,
    {
        buf[dst + k] = data[src + k];
        k += 1;
    }
}

/// A filesystem with nothing but the root directory.
pub open spec fn empty_fs(config: FsConfig) -> FsView {
    FsView {
        live: model::empty_disk(),
        persisted: model::empty_disk(),
        pending: Seq::empty(),
        handles: Map::empty(),
        next_fd: 0,
        next_ino: 0,
        pages: match config.page_cache {
            Some(_) => Some(Seq::empty()),
            None => None,
        },
        config,
    }
}

} // verus!
