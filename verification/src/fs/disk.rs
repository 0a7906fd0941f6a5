//! A disk, and the operations on it.
use crate::collections::{NumMap, PathMap};
use crate::fs::model;
use crate::fs::model::{DiskView, NodeView, OpView};
use crate::fs::ops::{DirData, FileData, Node, PendingOp, SymlinkData};
use crate::path;
use crate::path::{bytes_copy, PathBuf, PathView};
use crate::time::Duration;
use vstd::prelude::*;

verus! {

/// A disk.
pub struct Disk {
    nodes: PathMap<Node>,
    files: NumMap<FileData>,
}

impl View for Disk {
    type V = DiskView;

    closed spec fn view(&self) -> DiskView {
        DiskView { nodes: self.nodes@, files: self.files@ }
    }
}

/// Whether the path is among the first `i` keys.
spec fn among(keys: Seq<PathBuf>, i: int, path: PathView) -> bool {
    exists|j: int| 0 <= j < i && #[trigger] keys[j]@ == path
}

proof fn lemma_among(keys: Seq<PathBuf>, i: int)
    requires
        0 <= i < keys.len(),
    ensures
        forall|p: PathView| #[trigger]
            among(keys, i + 1, p) <==> among(keys, i, p) || p == keys[i]@,
{
    assert forall|p: PathView| #[trigger] among(keys, i + 1, p) <==> among(keys, i, p) || p
        == keys[i]@ by {
        if among(keys, i + 1, p) {
            let j = choose|j: int| 0 <= j < i + 1 && #[trigger] keys[j]@ == p;
            if j < i {
                assert(keys[j]@ == p);
            }
        }
        if among(keys, i, p) {
            let j = choose|j: int| 0 <= j < i && #[trigger] keys[j]@ == p;
            assert(0 <= j < i + 1 && keys[j]@ == p);
        }
        if p == keys[i]@ {
            assert(0 <= i < i + 1 && keys[i]@ == p);
        }
    }
}

proof fn lemma_among_all(keys: Seq<PathBuf>)
    ensures
        forall|p: PathView| #[trigger]
            among(keys, keys.len() as int, p) <==> crate::collections::lists(keys, p),
{
}

impl Disk {
    /// A disk with nothing but the root directory.
    pub fn new() -> (r: Disk)
        ensures
            r@ == model::empty_disk(),
    {
        let mut nodes: PathMap<Node> = PathMap::new();
        let root = Node::Dir(DirData::new(Duration::zero()));
        let _ = nodes.insert(PathBuf::root(), root);
        let r = Disk { nodes, files: NumMap::new() };
        proof {
            assert(r@.nodes =~= model::empty_disk().nodes);
            assert(r@.files =~= model::empty_disk().files);
        }
        r
    }

    /// Whether a file stands at the path.
    pub fn file_exists(&self, path: &PathBuf) -> (r: bool)
        ensures
            r == model::file_exists(self@, path@),
    {
        match self.nodes.get(path) {
            Some(Node::File(_)) => true,
            _ => false,
        }
    }

    /// Whether a directory stands at the path.
    pub fn dir_exists(&self, path: &PathBuf) -> (r: bool)
        ensures
            r == model::dir_exists(self@, path@),
    {
        match self.nodes.get(path) {
            Some(Node::Dir(_)) => true,
            _ => false,
        }
    }

    /// Whether a symbolic link stands at the path.
    pub fn symlink_exists(&self, path: &PathBuf) -> (r: bool)
        ensures
            r == model::symlink_exists(self@, path@),
    {
        match self.nodes.get(path) {
            Some(Node::Symlink(_)) => true,
            _ => false,
        }
    }

    /// Whether anything stands at the path.
    pub fn anything_at(&self, path: &PathBuf) -> (r: bool)
        ensures
            r == model::anything_at(self@, path@),
    {
        self.nodes.contains_key(path)
    }

    /// What stands at the path.
    pub(crate) fn node(&self, path: &PathBuf) -> (r: Option<&Node>)
        ensures
            match r {
                Some(n) => self@.nodes.contains_key(path@) && n@ == self@.nodes[path@],
                None => !self@.nodes.contains_key(path@),
            },
    {
        self.nodes.get(path)
    }

    /// The file with the number.
    pub(crate) fn file(&self, ino: u64) -> (r: Option<&FileData>)
        ensures
            match r {
                Some(f) => self@.files.contains_key(ino) && f@ == self@.files[ino],
                None => !self@.files.contains_key(ino),
            },
    {
        self.files.get(ino)
    }

    /// Puts a file on the disk under the number.
    pub(crate) fn put_file(&mut self, ino: u64, file: FileData)
        ensures
            final(self)@ == (DiskView { files: old(self)@.files.insert(ino, file@), ..old(self)@ }),
    {
        let _ = self.files.insert(ino, file);
    }

    /// Whether the file with the number has a name.
    pub fn is_named(&self, ino: u64) -> (r: bool)
        ensures
            r == model::is_named(self@, ino),
    {
        let keys = self.nodes.keys();
        let mut i: usize = 0;
        while i < keys.len()
            invariant
                i <= keys@.len(),
                forall|k: PathView| #[trigger]
                    self@.nodes.contains_key(k) <==> crate::collections::lists(keys@, k),
                forall|j: int|
                    0 <= j < i ==> self@.nodes[#[trigger] keys@[j]@] != NodeView::File(ino),
            decreases keys.len() - i,
        {
            proof {
                assert(keys@[i as int]@ == keys@[i as int]@);
                assert(self@.nodes.contains_key(keys@[i as int]@));
            }
            if let Some(Node::File(n)) = self.nodes.get(&keys[i]) {
                if *n == ino {
                    return true;
                }
            }
            i += 1;
        }
        proof {
            assert forall|p: PathView| #[trigger] self@.nodes.contains_key(p) implies self@.nodes[p]
                != NodeView::File(ino) by {
                let j = choose|j: int| 0 <= j < keys@.len() && #[trigger] keys@[j]@ == p;
                assert(self@.nodes[keys@[j]@] != NodeView::File(ino));
            }
        }
        false
    }

    /// The number of names of the file.
    pub fn nlink(&self, ino: u64) -> (r: u64)
        ensures
            r == model::names_of(self@, ino).len(),
    {
        let keys = self.nodes.keys();
        let mut n: usize = 0;
        let mut i: usize = 0;
        let ghost mut found: Set<PathView> = Set::empty();
        while i < keys.len()
            invariant
                n <= i <= keys@.len(),
                forall|k: PathView| #[trigger]
                    self@.nodes.contains_key(k) <==> crate::collections::lists(keys@, k),
                forall|i: int, j: int|
                    0 <= i < j < keys@.len() ==> #[trigger] keys@[i]@ != #[trigger] keys@[j]@,
                found.finite(),
                found.len() == n,
                forall|p: PathView| #[trigger]
                    found.contains(p) <==> among(keys@, i as int, p) && model::names_of(
                        self@,
                        ino,
                    ).contains(p),
            decreases keys.len() - i,
        {
            let ghost here = keys@[i as int]@;
            proof {
                lemma_among(keys@, i as int);
                assert(self@.nodes.contains_key(here));
                assert(!among(keys@, i as int, here));
            }
            let mut is_name = false;
            if let Some(Node::File(m)) = self.nodes.get(&keys[i]) {
                if *m == ino {
                    is_name = true;
                }
            }
            if is_name {
                n += 1;
                proof {
                    found = found.insert(here);
                }
            }
            i += 1;
        }
        proof {
            lemma_among_all(keys@);
            assert(found =~= model::names_of(self@, ino)) by {
                assert forall|p: PathView| found.contains(p) <==> model::names_of(
                    self@,
                    ino,
                ).contains(p) by {
                    if model::names_of(self@, ino).contains(p) {
                        assert(self@.nodes.contains_key(p));
                        assert(among(keys@, keys@.len() as int, p));
                    }
                }
            }
        }
        n as u64
    }

    /// The paths of what stands directly in the directory, each once.
    pub fn children(&self, dir: &PathBuf) -> (r: Vec<PathBuf>)
        ensures
            is_distinct(r@),
            forall|p: PathView| #[trigger]
                crate::collections::lists(r@, p) <==> self@.nodes.contains_key(p) && path::is_child(
                    p,
                    dir@,
                ),
    {
        let keys = self.nodes.keys();
        let mut out: Vec<PathBuf> = Vec::new();
        let mut i: usize = 0;
        while i < keys.len()
            invariant
                i <= keys@.len(),
                forall|k: PathView| #[trigger]
                    self@.nodes.contains_key(k) <==> crate::collections::lists(keys@, k),
                forall|i: int, j: int|
                    0 <= i < j < keys@.len() ==> #[trigger] keys@[i]@ != #[trigger] keys@[j]@,
                is_distinct(out@),
                forall|p: PathView| #[trigger]
                    crate::collections::lists(out@, p) <==> among(keys@, i as int, p)
                        && path::is_child(p, dir@),
            decreases keys.len() - i,
        {
            let ghost before = out@;
            let ghost here = keys@[i as int]@;
            proof {
                lemma_among(keys@, i as int);
                assert(!among(keys@, i as int, here));
            }
            if keys[i].is_in(dir) {
                out.push(keys[i].clone());
                proof {
                    assert(out@.drop_last() =~= before);
                    lemma_pushed(before, out@, here);
                }
            }
            i += 1;
        }
        proof {
            lemma_among_all(keys@);
        }
        out
    }

    /// Whether anything stands directly in the directory.
    pub fn has_children(&self, dir: &PathBuf) -> (r: bool)
        ensures
            r == model::has_children(self@, dir@),
    {
        let found = self.children(dir);
        if found.len() > 0 {
            proof {
                assert(crate::collections::lists(found@, found@[0]@));
                assert(self@.nodes.contains_key(found@[0]@));
            }
            true
        } else {
            proof {
                assert forall|p: PathView| #[trigger] self@.nodes.contains_key(p) implies
                    !path::is_child(p, dir@) by {
                    if path::is_child(p, dir@) {
                        assert(crate::collections::lists(found@, p));
                    }
                }
            }
            false
        }
    }
}

/// Whether no path is listed twice.
pub open spec fn is_distinct(paths: Seq<PathBuf>) -> bool {
    forall|i: int, j: int|
        0 <= i < j < paths.len() ==> #[trigger] paths[i]@ != #[trigger] paths[j]@
}

proof fn lemma_pushed(before: Seq<PathBuf>, after: Seq<PathBuf>, path: PathView)
    requires
        after.len() == before.len() + 1,
        after.drop_last() == before,
        after.last()@ == path,
    ensures
        forall|p: PathView| #[trigger]
            crate::collections::lists(after, p) <==> crate::collections::lists(before, p) || p
                == path,
        is_distinct(before) && !crate::collections::lists(before, path) ==> is_distinct(after),
{
    let n = before.len() as int;
    assert forall|i: int| 0 <= i < n implies #[trigger] after[i] == before[i] by {
        assert(after.drop_last()[i] == after[i]);
    }
    assert forall|p: PathView| #[trigger]
        crate::collections::lists(after, p) <==> crate::collections::lists(before, p) || p
            == path by {
        if crate::collections::lists(after, p) {
            let i = choose|i: int| 0 <= i < after.len() && #[trigger] after[i]@ == p;
            if i < n {
                assert(before[i]@ == p);
            }
        }
        if crate::collections::lists(before, p) {
            let i = choose|i: int| 0 <= i < n && #[trigger] before[i]@ == p;
            assert(after[i]@ == p);
        }
        if p == path {
            assert(after[n]@ == p);
        }
    }
    if is_distinct(before) && !crate::collections::lists(before, path) {
        assert forall|i: int, j: int| 0 <= i < j < after.len() implies #[trigger] after[i]@
            != #[trigger] after[j]@ by {
            if j == n {
                assert(before[i]@ == after[i]@);
            } else {
                assert(before[i]@ != before[j]@);
            }
        }
    }
}

/// Writes `data` over `content` at `offset`, after extending it by zeros if needed.
fn overwrite(content: &mut Vec<u8>, offset: usize, data: &Vec<u8>)
    requires
        offset + data@.len() <= usize::MAX,
    ensures
        final(content)@ == model::overwritten(old(content)@, offset as nat, data@),
{
    let end: usize = offset + data.len();
    if end > content.len() {
        content.resize(end, 0);
    }
    let ghost extended = content@;
    let mut k: usize = 0;
    while k < data.len()
        invariant
            k <= data.len(),
            offset + data.len() <= content@.len(),
            content@.len() == extended.len(),
            end == offset + data.len(),
            forall|j: int|
                0 <= j < content@.len() ==> content@[j] == (if offset <= j < offset + k {
                    data@[j - offset]
                } else {
                    extended[j]
                }),
        decreases data.len() - k,
    {
        content[offset + k] = data[k];
        k += 1;
    }
    proof {
        assert forall|j: int| 0 <= j < extended.len() implies extended[j] == (if j < old(
            content,
        )@.len() {
            old(content)@[j]
        } else {
            0u8
        }) by {
            if j < old(content)@.len() && end > old(content)@.len() {
                assert(extended.subrange(0, old(content)@.len() as int)[j] == old(content)@[j]);
            }
        }
        assert(content@ =~= model::overwritten(old(content)@, offset as nat, data@));
    }
}

/// Cuts `content` to `len` bytes or extends it by zeros.
fn resize(content: &mut Vec<u8>, len: usize)
    ensures
        final(content)@ == model::resized(old(content)@, len as nat),
{
    content.resize(len, 0);
    proof {
        assert forall|j: int| 0 <= j < len implies content@[j] == (if j < old(content)@.len() {
            old(content)@[j]
        } else {
            0u8
        }) by {
            if j < old(content)@.len() && len > old(content)@.len() {
                assert(content@.subrange(0, old(content)@.len() as int)[j] == old(content)@[j]);
            }
        }
        assert(content@ =~= model::resized(old(content)@, len as nat));
    }
}

/// The rename moves what stands at a path to exactly one path.
proof fn lemma_stood_at(from: PathView, to: PathView, p: PathView, k: PathView)
    ensures
        stays(from, to, p) && model::stood_at(from, to, p) == k <==> p == lands_at(from, to, k)
            && stays(from, to, p) && (model::is_within(k, from) || !model::is_within(k, to)),
{
    if stays(from, to, p) && model::stood_at(from, to, p) == k {
        if model::is_within(p, to) {
            let rest = p.skip(to.len() as int);
            assert(k.take(from.len() as int) =~= from);
            assert(k.skip(from.len() as int) =~= rest);
            assert(p =~= to + rest) by {
                assert(p =~= p.take(to.len() as int) + rest);
            }
        }
    }
    if p == lands_at(from, to, k) && (model::is_within(k, from) || !model::is_within(k, to)) {
        if model::is_within(k, from) {
            let rest = k.skip(from.len() as int);
            assert(p.take(to.len() as int) =~= to);
            assert(p.skip(to.len() as int) =~= rest);
            assert(k =~= from + rest) by {
                assert(k =~= k.take(from.len() as int) + rest);
            }
        }
    }
}

/// Whether something can stand at the path after the rename.
spec fn stays(from: PathView, to: PathView, p: PathView) -> bool {
    model::is_within(p, to) || !model::is_within(p, from)
}

/// Where the rename leaves what stands at the path.
spec fn lands_at(from: PathView, to: PathView, k: PathView) -> PathView {
    if model::is_within(k, from) {
        to + k.skip(from.len() as int)
    } else {
        k
    }
}

impl Disk {
    /// Notes when the directory was modified.
    pub(crate) fn stamp_dir(&mut self, dir: &PathBuf, time: Duration)
        ensures
            final(self)@ == (DiskView {
                nodes: model::stamped(old(self)@.nodes, dir@, time),
                ..old(self)@
            }),
    {
        let changed = match self.nodes.get(dir) {
            Some(Node::Dir(data)) => Some(DirData { mtime: time, ctime: time, ..*data }),
            _ => None,
        };
        if let Some(data) = changed {
            let _ = self.nodes.insert(dir.clone(), Node::Dir(data));
        }
    }

    /// Notes when the directory that holds the path was modified.
    fn modify_dir(&mut self, path: &PathBuf, time: Duration)
        ensures
            final(self)@ == (DiskView {
                nodes: model::modified(old(self)@.nodes, path@, time),
                ..old(self)@
            }),
    {
        if let Some(parent) = path.parent() {
            self.stamp_dir(&parent, time);
        }
    }

    /// Moves what stands at a path, and below it, to another.
    fn move_tree(&mut self, from: &PathBuf, to: &PathBuf)
        ensures
            final(self)@ == (DiskView {
                nodes: model::moved(old(self)@.nodes, from@, to@),
                ..old(self)@
            }),
    {
        let ghost start = self@.nodes;
        let ghost target = model::moved(start, from@, to@);
        let keys = self.nodes.keys();
        let mut out: PathMap<Node> = PathMap::new();
        let mut i: usize = 0;
        while i < keys.len()
            invariant
                i <= keys@.len(),
                self@ == old(self)@,
                start == self@.nodes,
                target == model::moved(start, from@, to@),
                forall|k: PathView| #[trigger]
                    start.contains_key(k) <==> crate::collections::lists(keys@, k),
                forall|p: PathView| #[trigger]
                    out@.contains_key(p) <==> target.contains_key(p) && among(
                        keys@,
                        i as int,
                        model::stood_at(from@, to@, p),
                    ),
                forall|p: PathView| #[trigger] out@.contains_key(p) ==> out@[p] == target[p],
            decreases keys.len() - i,
        {
            let ghost here = keys@[i as int]@;
            let ghost before = out@;
            proof {
                lemma_among(keys@, i as int);
                assert(keys@[i as int]@ == here);
                assert(start.contains_key(here));
                assert forall|p: PathView| true implies (stays(from@, to@, p) && #[trigger]
                    model::stood_at(from@, to@, p) == here <==> p == lands_at(from@, to@, here)
                    && stays(from@, to@, p) && (model::is_within(here, from@) || !model::is_within(
                    here,
                    to@,
                ))) by {
                    lemma_stood_at(from@, to@, p, here);
                }
            }
            let lands: Option<PathBuf> = if keys[i].is_within(from) {
                Some(keys[i].moved(from, to))
            } else if keys[i].is_within(to) {
                None
            } else {
                Some(keys[i].clone())
            };
            if let Some(place) = lands {
                proof {
                    let p = place@;
                    assert(p == lands_at(from@, to@, here));
                    if model::is_within(here, from@) {
                        assert(p.take(to@.len() as int) =~= to@);
                    }
                    assert(stays(from@, to@, p));
                    lemma_stood_at(from@, to@, p, here);
                    assert(model::stood_at(from@, to@, p) == here);
                    assert(target.contains_key(p));
                    assert(target[p] == start[here]);
                }
                if let Some(node) = self.nodes.get(&keys[i]) {
                    let _ = out.insert(place, node.duplicate());
                }
            }
            i += 1;
        }
        self.nodes = out;
        proof {
            lemma_among_all(keys@);
            assert(out@ =~= target) by {
                assert forall|p: PathView| #[trigger] out@.contains_key(p) <==> target.contains_key(
                    p,
                ) by {
                    if target.contains_key(p) {
                        assert(start.contains_key(model::stood_at(from@, to@, p)));
                        assert(among(keys@, keys@.len() as int, model::stood_at(from@, to@, p)));
                    }
                }
            }
        }
    }

    /// Removes what stands at a path, and below it.
    fn remove_tree(&mut self, top: &PathBuf)
        ensures
            final(self)@ == (DiskView {
                nodes: model::without_tree(old(self)@.nodes, top@),
                ..old(self)@
            }),
    {
        let ghost start = self@.nodes;
        let keys = self.nodes.keys();
        let mut i: usize = 0;
        while i < keys.len()
            invariant
                i <= keys@.len(),
                start == old(self)@.nodes,
                self@.files == old(self)@.files,
                forall|k: PathView| #[trigger]
                    start.contains_key(k) <==> crate::collections::lists(keys@, k),
                forall|p: PathView| #[trigger]
                    self@.nodes.contains_key(p) <==> start.contains_key(p) && !(among(
                        keys@,
                        i as int,
                        p,
                    ) && model::is_within(p, top@)),
                forall|p: PathView| #[trigger]
                    self@.nodes.contains_key(p) ==> self@.nodes[p] == start[p],
            decreases keys.len() - i,
        {
            let ghost before = self@.nodes;
            if keys[i].is_within(top) {
                let _ = self.nodes.swap_remove(&keys[i]);
            }
            i += 1;
            proof {
                lemma_among(keys@, i - 1);
                assert forall|p: PathView| true implies (#[trigger] self@.nodes.contains_key(p)
                    <==> before.contains_key(p) && !(p == keys@[i - 1]@ && model::is_within(
                    p,
                    top@,
                ))) by {}
            }
        }
        proof {
            lemma_among_all(keys@);
            assert(self@.nodes =~= model::without_tree(start, top@));
        }
    }

    /// Takes the directory, and what stands directly in it, as the other disk has them. Where
    /// both have a directory, it keeps its own times and permission bits.
    pub(crate) fn take_dir(&mut self, other: &Disk, dir: &PathBuf)
        ensures
            final(self)@ == (DiskView {
                nodes: model::with_dir_of(old(self)@.nodes, other@.nodes, dir@),
                ..old(self)@
            }),
    {
        let ghost start = self@.nodes;
        let ghost target = model::with_dir_of(start, other@.nodes, dir@);
        let ghost kept = |p: PathView|
            start.contains_key(p) && other@.nodes.contains_key(p) && model::are_dirs(
                start[p],
                other@.nodes[p],
            );
        let keys = self.nodes.keys();
        let mut i: usize = 0;
        while i < keys.len()
            invariant
                i <= keys@.len(),
                start == old(self)@.nodes,
                kept == (|p: PathView|
                    start.contains_key(p) && other@.nodes.contains_key(p) && model::are_dirs(
                        start[p],
                        other@.nodes[p],
                    )),
                self@.files == old(self)@.files,
                forall|k: PathView| #[trigger]
                    start.contains_key(k) <==> crate::collections::lists(keys@, k),
                forall|p: PathView| #[trigger]
                    self@.nodes.contains_key(p) <==> start.contains_key(p) && !(among(
                        keys@,
                        i as int,
                        p,
                    ) && model::is_of_dir(p, dir@) && !kept(p)),
                forall|p: PathView| #[trigger]
                    self@.nodes.contains_key(p) ==> self@.nodes[p] == start[p],
            decreases keys.len() - i,
        {
            let ghost before = self@.nodes;
            let ghost here = keys@[i as int]@;
            proof {
                assert(keys@[i as int]@ == here);
                assert(start.contains_key(here));
                lemma_among(keys@, i as int);
            }
            let in_both = self.dir_exists(&keys[i]) && other.dir_exists(&keys[i]);
            if (keys[i].same(dir) || keys[i].is_in(dir)) && !in_both {
                let _ = self.nodes.swap_remove(&keys[i]);
            }
            i += 1;
            proof {
                assert forall|p: PathView| true implies (#[trigger] self@.nodes.contains_key(p)
                    <==> before.contains_key(p) && !(p == here && model::is_of_dir(p, dir@)
                    && !kept(p))) by {}
            }
        }
        proof {
            lemma_among_all(keys@);
        }
        let others = other.nodes.keys();
        let mut j: usize = 0;
        while j < others.len()
            invariant
                j <= others@.len(),
                start == old(self)@.nodes,
                kept == (|p: PathView|
                    start.contains_key(p) && other@.nodes.contains_key(p) && model::are_dirs(
                        start[p],
                        other@.nodes[p],
                    )),
                target == model::with_dir_of(start, other@.nodes, dir@),
                self@.files == old(self)@.files,
                forall|k: PathView| #[trigger]
                    other@.nodes.contains_key(k) <==> crate::collections::lists(others@, k),
                forall|p: PathView| #[trigger]
                    self@.nodes.contains_key(p) <==> (if model::is_of_dir(p, dir@) {
                        kept(p) || among(others@, j as int, p)
                    } else {
                        start.contains_key(p)
                    }),
                forall|p: PathView| #[trigger]
                    self@.nodes.contains_key(p) ==> self@.nodes[p] == target[p],
            decreases others.len() - j,
        {
            let ghost here = others@[j as int]@;
            proof {
                lemma_among(others@, j as int);
                assert(others@[j as int]@ == here);
                assert(other@.nodes.contains_key(here));
            }
            let ghost before = self@.nodes;
            let in_both = self.dir_exists(&others[j]) && other.dir_exists(&others[j]);
            if (others[j].same(dir) || others[j].is_in(dir)) && !in_both {
                if let Some(node) = other.nodes.get(&others[j]) {
                    let _ = self.nodes.insert(others[j].clone(), node.duplicate());
                }
            }
            j += 1;
            proof {
                assert forall|p: PathView| true implies (#[trigger] self@.nodes.contains_key(p)
                    <==> before.contains_key(p) || p == here && model::is_of_dir(p, dir@)) by {}
            }
        }
        proof {
            lemma_among_all(others@);
            assert(self@.nodes =~= target);
        }
    }

    /// The same disk again. Its files have the numbers below `next_ino`.
    pub(crate) fn duplicate(&self, next_ino: u64) -> (r: Disk)
        requires
            forall|ino: u64| #[trigger] self@.files.contains_key(ino) ==> ino < next_ino,
        ensures
            r@ == self@,
    {
        let keys = self.nodes.keys();
        let mut nodes: PathMap<Node> = PathMap::new();
        let mut i: usize = 0;
        while i < keys.len()
            invariant
                i <= keys@.len(),
                forall|k: PathView| #[trigger]
                    self@.nodes.contains_key(k) <==> crate::collections::lists(keys@, k),
                forall|p: PathView| #[trigger]
                    nodes@.contains_key(p) <==> among(keys@, i as int, p),
                forall|p: PathView| #[trigger]
                    nodes@.contains_key(p) ==> nodes@[p] == self@.nodes[p],
            decreases keys.len() - i,
        {
            proof {
                lemma_among(keys@, i as int);
                assert(keys@[i as int]@ == keys@[i as int]@);
                assert(self@.nodes.contains_key(keys@[i as int]@));
            }
            if let Some(node) = self.nodes.get(&keys[i]) {
                let _ = nodes.insert(keys[i].clone(), node.duplicate());
            }
            i += 1;
        }
        let mut files: NumMap<FileData> = NumMap::new();
        let mut n: u64 = 0;
        while n < next_ino
            invariant
                n <= next_ino,
                forall|ino: u64| #[trigger]
                    files@.contains_key(ino) <==> self@.files.contains_key(ino) && ino < n,
                forall|ino: u64| #[trigger]
                    files@.contains_key(ino) ==> files@[ino] == self@.files[ino],
            decreases next_ino - n,
        {
            if let Some(file) = self.files.get(n) {
                let _ = files.insert(n, file.duplicate());
            }
            n += 1;
        }
        let r = Disk { nodes, files };
        proof {
            lemma_among_all(keys@);
            assert(r@.nodes =~= self@.nodes);
            assert(r@.files =~= self@.files);
        }
        r
    }

    /// Changes the disk by the operation.
    pub fn apply(&mut self, op: &PendingOp)
        requires
            model::op_fits(op@),
        ensures
            final(self)@ == model::apply(old(self)@, op@),
    {
        let ghost before = self@;
        match op {
            PendingOp::CreateFile { path, ino, time, mode } => {
                if !self.file_exists(path) {
                    let _ = self.nodes.insert(path.clone(), Node::File(*ino));
                    if self.files.get(*ino).is_none() {
                        let _ = self.files.insert(*ino, FileData::with_mode(*time, *mode));
                    }
                }
            },
            PendingOp::CreateDir { path, time, mode } => {
                if !self.dir_exists(path) {
                    let dir = Node::Dir(DirData::with_mode(*time, *mode));
                    let _ = self.nodes.insert(path.clone(), dir);
                }
            },
            PendingOp::CreateSymlink { path, target, time } => {
                if !self.symlink_exists(path) {
                    let link = Node::Symlink(SymlinkData::new(bytes_copy(target), *time));
                    let _ = self.nodes.insert(path.clone(), link);
                }
            },
            PendingOp::CreateHardLink { path, ino, time } => {
                if let Some(mut file) = self.files.swap_remove(*ino) {
                    file.ctime = *time;
                    let _ = self.files.insert(*ino, file);
                    let _ = self.nodes.insert(path.clone(), Node::File(*ino));
                }
            },
            PendingOp::Write { ino, offset, data, time } => {
                if let Some(mut file) = self.files.swap_remove(*ino) {
                    overwrite(&mut file.content, *offset as usize, data);
                    file.mtime = *time;
                    file.ctime = *time;
                    let _ = self.files.insert(*ino, file);
                }
            },
            PendingOp::SetLen { ino, len, time } => {
                if let Some(mut file) = self.files.swap_remove(*ino) {
                    resize(&mut file.content, *len as usize);
                    file.mtime = *time;
                    file.ctime = *time;
                    let _ = self.files.insert(*ino, file);
                }
            },
            PendingOp::SetPermissions { path, mode, time } => {
                self.set_mode(path, *mode, *time);
            },
            PendingOp::Rename { from, to, .. } => {
                if self.anything_at(from) {
                    self.move_tree(from, to);
                }
            },
            PendingOp::RemoveFile { path, .. } => {
                let _ = self.nodes.swap_remove(path);
            },
            PendingOp::RemoveDir { path, .. } => {
                let _ = self.nodes.swap_remove(path);
            },
            PendingOp::RemoveTree { path, .. } => {
                self.remove_tree(path);
            },
        }
        proof {
            let after = model::apply(before, op@);
            assert(self@.nodes =~= after.nodes);
            assert(self@.files =~= after.files);
        }
    }

    /// Changes the disk by the operation, and notes when the directories in which it changes
    /// something were modified.
    pub fn carry_out(&mut self, op: &PendingOp)
        requires
            model::op_fits(op@),
        ensures
            final(self)@ == model::carried_out(old(self)@, op@),
    {
        self.apply(op);
        match op {
            PendingOp::CreateFile { path, time, .. } => self.modify_dir(path, *time),
            PendingOp::CreateDir { path, time, .. } => self.modify_dir(path, *time),
            PendingOp::CreateSymlink { path, time, .. } => self.modify_dir(path, *time),
            PendingOp::CreateHardLink { path, time, .. } => self.modify_dir(path, *time),
            PendingOp::Rename { from, to, time } => {
                self.modify_dir(from, *time);
                self.modify_dir(to, *time);
            },
            PendingOp::RemoveFile { path, time } => self.modify_dir(path, *time),
            PendingOp::RemoveDir { path, time } => self.modify_dir(path, *time),
            PendingOp::RemoveTree { path, time } => self.modify_dir(path, *time),
            _ => {},
        }
    }

    fn set_mode(&mut self, path: &PathBuf, mode: u32, time: Duration)
        ensures
            final(self)@ == model::apply(
                old(self)@,
                OpView::SetPermissions { path: path@, mode, time },
            ),
    {
        let ghost before = self@;
        let mut number: Option<u64> = None;
        let mut changed: Option<DirData> = None;
        match self.nodes.get(path) {
            Some(Node::File(ino)) => {
                number = Some(*ino);
            },
            Some(Node::Dir(dir)) => {
                changed = Some(DirData { mode, ctime: time, ..*dir });
            },
            _ => {},
        }
        if let Some(ino) = number {
            if let Some(mut file) = self.files.swap_remove(ino) {
                file.mode = mode;
                file.ctime = time;
                let _ = self.files.insert(ino, file);
            }
        }
        if let Some(dir) = changed {
            let _ = self.nodes.insert(path.clone(), Node::Dir(dir));
        }
        proof {
            let after = model::apply(before, OpView::SetPermissions { path: path@, mode, time });
            assert(self@.nodes =~= after.nodes);
            assert(self@.files =~= after.files);
        }
    }
}

} // verus!
