//! Laws of opening and reading files, of following links, of metadata and of the page cache.
use crate::error::{Cause, Error, ErrorKind};
use crate::fs::cache;
use crate::fs::config::FsConfig;
use crate::fs::entry_laws;
use crate::fs::file;
use crate::fs::file::{File, FsCorruption, OpenOptions, SeekFrom};
use crate::fs::model;
use crate::fs::model::{DiskView, FileView, FsView, HandleView, NodeView};
use crate::fs::state;
use crate::fs::std_fs;
use crate::fs::std_fs::{Chance, Metadata};
use crate::fs::tokio_fs;
use crate::fs::tokio_fs::Pace;
use crate::path;
use crate::path::PathView;
use crate::time::Duration;
use vstd::prelude::*;

verus! {

/// Opening a file fails where its links lead in a circle; where it must be new and is there;
/// where it must be there and is not; where it is to be created outside of a directory; and where
/// a directory stands. Otherwise it succeeds.
pub proof fn law_when_a_file_can_be_opened(
    fs: FsView,
    options: OpenOptions,
    now: Duration,
    raw: Seq<u8>,
)
    ensures
        ({
            let (after, r) = file::opened(fs, options, now, raw);
            let n = fs.live.nodes;
            &&& r is Err ==> after == fs
            &&& match model::followed(fs.live, path::parse(raw)) {
                None => r == Err::<File, Error>(
                    Error { kind: ErrorKind::NotFound, cause: Cause::NoSuchEntry },
                ),
                Some(p) => {
                    let there = n.contains_key(p) && n[p] is File;
                    let dir = n.contains_key(p) && n[p] is Dir;
                    let parent = p.len() == 0 || (n.contains_key(p.take(p.len() - 1)) && n[p.take(
                        p.len() - 1,
                    )] is Dir);
                    let may_create = options.create || options.create_new;
                    &&& r is Ok <==> (there && !options.create_new) || (!there && may_create
                        && parent && !dir)
                    &&& there && options.create_new ==> r == Err::<File, Error>(
                        Error { kind: ErrorKind::AlreadyExists, cause: Cause::FileExists },
                    )
                    &&& !there && !may_create ==> r == Err::<File, Error>(
                        Error { kind: ErrorKind::NotFound, cause: Cause::FileNotFound },
                    )
                    &&& !there && may_create && !parent ==> r == Err::<File, Error>(
                        Error { kind: ErrorKind::NotFound, cause: Cause::ParentNotFound },
                    )
                    &&& !there && may_create && parent && dir ==> r == Err::<File, Error>(
                        Error { kind: ErrorKind::Other, cause: Cause::IsDirectory },
                    )
                },
            }
        }),
{
    if let Some(p) = model::followed(fs.live, path::parse(raw)) {
        if p.len() > 0 {
            assert(p.drop_last() =~= p.take(p.len() - 1));
        }
    }
}

/// A file that is opened has the next descriptor and the rights that were asked for, and its
/// cursor stands at the start. It is the file at the path, or a new empty one. It is cut to
/// nothing if that was asked for; otherwise a file that was there keeps its bytes. No other file
/// changes.
pub proof fn law_opened_file(
    fs: FsView,
    options: OpenOptions,
    now: Duration,
    raw: Seq<u8>,
    other: u64,
)
    requires
        model::fs_wf(fs),
        model::has_numbers(fs),
        file::opened(fs, options, now, raw).1 is Ok,
    ensures
        ({
            let (after, r) = file::opened(fs, options, now, raw);
            let f = r->Ok_0;
            let p = model::followed(fs.live, path::parse(raw)).unwrap();
            let there = fs.live.nodes.contains_key(p) && fs.live.nodes[p] is File;
            let ino = after.handles[fs.next_fd].ino;
            &&& f.fd == fs.next_fd && f.cursor == 0
            &&& f.readable == options.read && f.writable == (options.write || options.append)
            &&& f.append_mode == options.append
            &&& options.direct_io ==> f.direct_io
            &&& !options.direct_io ==> f.direct_io == (options.custom_flags & 0x4000i32 != 0)
            &&& after.next_fd == fs.next_fd + 1
            &&& after.handles.dom() == fs.handles.dom().insert(fs.next_fd)
            &&& forall|fd: u64|
                fs.handles.contains_key(fd) ==> #[trigger] after.handles[fd] == fs.handles[fd]
            &&& after.handles[fs.next_fd].path == p
            &&& after.live.nodes.contains_key(p) && after.live.nodes[p] == NodeView::File(ino)
            &&& there ==> fs.live.nodes[p] == NodeView::File(ino) && after.next_ino == fs.next_ino
            &&& !there ==> ino == fs.next_ino && after.next_ino == fs.next_ino + 1
                && after.live.files[ino].mode == options.mode && after.live.files[ino].crtime == now
            &&& !there || (options.truncate && options.write) ==> after.live.files[ino].content
                == Seq::<u8>::empty()
            &&& there && !(options.truncate && options.write) ==> after.live == fs.live
                && after.pending == fs.pending
            &&& other != ino && fs.live.files.contains_key(other) ==> after.live.files[other]
                == fs.live.files[other]
        }),
{
    let (after, r) = file::opened(fs, options, now, raw);
    let p = model::followed(fs.live, path::parse(raw)).unwrap();
    assert(after.handles.dom() =~= fs.handles.dom().insert(fs.next_fd));
    if model::file_exists(fs.live, p) {
        assert(fs.live.files.contains_key(model::number_at(fs.live, p)));
    } else {
        assert(!fs.live.files.contains_key(fs.next_ino));
        if p.len() > 0 {
            assert(p.drop_last() != p);
        }
    }
    let ino = after.handles[fs.next_fd].ino;
    if !model::file_exists(fs.live, p) || (options.truncate && options.write) {
        assert(after.live.files[ino].content =~= Seq::<u8>::empty());
    }
}

/// A read gives the bytes of the file from its place on, as many as there are and there is room
/// for, and leaves the rest of the buffer. Where one is corrupted it is reported, and no other
/// differs.
pub proof fn law_read_gives_the_bytes(
    fs: FsView,
    f: File,
    addr: usize,
    offset: u64,
    chance: Chance,
    before: Seq<u8>,
    after: Seq<u8>,
    r: Result<(usize, Option<FsCorruption>), Error>,
)
    requires
        file::reads_at(fs, f, addr, offset, chance, before, after, r),
        r is Ok,
    ensures
        ({
            let content = fs.live.files[fs.handles[f.fd].ino].content;
            let n = r->Ok_0.0;
            &&& after.len() == before.len()
            &&& offset >= content.len() ==> n == 0
            &&& offset < content.len() && before.len() <= content.len() - offset ==> n
                == before.len()
            &&& offset < content.len() && before.len() > content.len() - offset ==> n
                == content.len() - offset
            &&& forall|k: int| n <= k < before.len() ==> #[trigger] after[k] == before[k]
            &&& match r->Ok_0.1 {
                None => {
                    &&& n == 0 || !chance.corrupt
                    &&& forall|k: int| 0 <= k < n ==> #[trigger] after[k] == content[offset + k]
                },
                Some(what) => {
                    &&& chance.corrupt && what.len == 1 && what.path@ == fs.handles[f.fd].path
                    &&& offset <= what.offset < offset + n
                    &&& forall|k: int|
                        0 <= k < n ==> ((#[trigger] after[k] == content[offset + k]) <==> offset + k
                            != what.offset)
                },
            }
        }),
{
    let content = fs.live.files[fs.handles[f.fd].ino].content;
    let n = r->Ok_0.0;
    let clean = model::read_bytes(content, offset, before.len()) + before.skip(n as int);
    assert(clean.len() == before.len());
    if let Some(what) = r->Ok_0.1 {
        let at = what.offset - offset;
        let byte = choose|byte: u8| after == #[trigger] file::corrupted(clean, at, byte);
        let bits = if byte == 0 {
            1u8
        } else {
            byte
        };
        let x = clean[at];
        assert(x ^ bits != x) by (bit_vector)
            requires
                bits != 0u8,
        ;
    }
}

/// A read fails just where the file is not open for reading, where it bypasses the cache and its
/// buffer, length or place is not aligned, where the disk fails, or where the file is closed; and
/// leaves the buffer.
pub proof fn law_read_fails_for_a_reason(
    fs: FsView,
    f: File,
    addr: usize,
    offset: u64,
    chance: Chance,
    before: Seq<u8>,
    after: Seq<u8>,
    r: Result<(usize, Option<FsCorruption>), Error>,
)
    requires
        file::reads_at(fs, f, addr, offset, chance, before, after, r),
        fs.config.direct_io_alignment > 0,
    ensures
        ({
            let a = fs.config.direct_io_alignment;
            let skewed = f.direct_io && !(addr % a == 0 && before.len() % (a as nat) == 0 && offset
                % (a as u64) == 0);
            &&& r is Err ==> after == before
            &&& r is Err <==> !f.readable || skewed || chance.io_error || !fs.handles.contains_key(
                f.fd,
            )
            &&& !f.readable ==> r == Err::<(usize, Option<FsCorruption>), Error>(
                Error { kind: ErrorKind::PermissionDenied, cause: Cause::NotReadable },
            )
            &&& f.readable && skewed ==> r == Err::<(usize, Option<FsCorruption>), Error>(
                Error { kind: ErrorKind::InvalidInput, cause: Cause::Misaligned },
            )
            &&& f.readable && !skewed && chance.io_error ==> r == Err::<
                (usize, Option<FsCorruption>),
                Error,
            >(Error { kind: ErrorKind::Other, cause: Cause::Io })
            &&& f.readable && !skewed && !chance.io_error && !fs.handles.contains_key(f.fd) ==> r
                == Err::<(usize, Option<FsCorruption>), Error>(
                Error { kind: ErrorKind::NotFound, cause: Cause::HandleNotFound },
            )
        }),
{
}

/// Reading all of a file gives all its bytes, unless the disk fails or a byte is corrupted, and
/// leaves the filesystem as it was but for a descriptor.
pub proof fn law_whole_read(
    fs: FsView,
    raw: Seq<u8>,
    chance: Chance,
    r: Result<Seq<u8>, Error>,
    p: PathView,
    ino: u64,
)
    requires
        file::reads(fs, raw, chance, r),
        model::followed(fs.live, path::parse(raw)) == Some(p),
        fs.live.nodes.contains_key(p) && fs.live.nodes[p] == NodeView::File(ino),
    ensures
        ({
            let content = fs.live.files[ino].content;
            &&& content.len() == 0 || (!chance.io_error && !chance.corrupt) ==> r == Ok::<
                Seq<u8>,
                Error,
            >(content)
            &&& content.len() > 0 && chance.io_error ==> r == Err::<Seq<u8>, Error>(
                Error { kind: ErrorKind::Other, cause: Cause::Io },
            )
            &&& content.len() > 0 && !chance.io_error && chance.corrupt ==> r is Ok
                && r->Ok_0.len() == content.len() && (exists|k: int|
                0 <= k < content.len() && content[k] != #[trigger] r->Ok_0[k] && forall|j: int|
                    0 <= j < content.len() && j != k ==> content[j] == #[trigger] r->Ok_0[j])
        }),
        file::after_read(fs, raw).next_fd == (fs.next_fd + 1) as u64,
        ({
            let after = file::after_read(fs, raw);
            (after.live, after.persisted, after.pending, after.handles, after.next_ino, after.pages)
                == (fs.live, fs.persisted, fs.pending, fs.handles, fs.next_ino, fs.pages)
        }),
{
    let content = fs.live.files[ino].content;
    if content.len() > 0 && !chance.io_error && chance.corrupt {
        let got = r->Ok_0;
        let at = choose|at: int|
            0 <= at && at < content.len() && #[trigger] file::is_corrupted(content, got, at);
        let byte = choose|byte: u8| got == #[trigger] file::corrupted(content, at, byte);
        let bits = if byte == 0 {
            1u8
        } else {
            byte
        };
        let x = content[at];
        assert(x ^ bits != x) by (bit_vector)
            requires
                bits != 0u8,
        ;
        assert(content[at] != got[at]);
    }
}

/// A copy holds what was read and says how many bytes that is; where nothing could be read
/// nothing is written.
pub proof fn law_copy_holds_what_was_read(
    before: FsView,
    after: FsView,
    now: Duration,
    to: Seq<u8>,
    bytes: Result<Seq<u8>, Error>,
    chance: Chance,
    r: Result<u64, Error>,
)
    requires
        model::fs_wf(before),
        model::has_numbers(before),
        file::copies(before, after, now, to, bytes, chance, r),
    ensures
        bytes matches Err(e) ==> after == before && r == Err::<u64, Error>(e),
        r matches Ok(n) ==> bytes is Ok && n == bytes->Ok_0.len() as u64,
        r is Ok ==> {
            let p = model::followed(before.live, path::parse(to)).unwrap();
            &&& after.live.nodes.contains_key(p) && after.live.nodes[p] is File
            &&& after.live.files[after.live.nodes[p]->File_0].content == bytes->Ok_0
        },
        after.handles.dom() == before.handles.dom(),
{
    if let Ok(contents) = bytes {
        let opened = file::opened(before, file::create_options(), now, to);
        let p = model::followed(before.live, path::parse(to)).unwrap();
        if opened.1 is Ok {
            law_opened_file(before, file::create_options(), now, to, 0);
            assert(!before.handles.contains_key(before.next_fd));
            assert(after.handles.dom() =~= before.handles.dom());
            let open = opened.0;
            let ino = open.handles[before.next_fd].ino;
            if model::file_exists(before.live, p) {
                assert(before.live.files.contains_key(ino));
            }
            assert(open.live.files.contains_key(ino));
            if r is Ok {
                assert(model::overwritten(Seq::empty(), 0, contents) =~= contents);
                assert(after.live.files[ino].content =~= contents);
            }
        } else {
            assert(after.handles.dom() =~= before.handles.dom());
        }
    }
}

/// A link with two dots takes back the name before them; a path without two dots is plain.
pub proof fn law_two_dots_take_a_name_back(p: PathView, name: Seq<u8>)
    requires
        name != seq![46u8, 46u8],
    ensures
        model::plain(p.push(name).push(seq![46u8, 46u8])) == model::plain(p),
        model::plain(p.push(name)) == model::plain(p).push(name),
        model::plain(Seq::<Seq<u8>>::empty().push(seq![46u8, 46u8])).len() == 0,
        (forall|k: int| 0 <= k < p.len() ==> #[trigger] p[k] != seq![46u8, 46u8]) ==> model::plain(p)
            == p,
{
    let q = p.push(name);
    assert(q.drop_last() =~= p);
    assert(q.push(seq![46u8, 46u8]).drop_last() =~= q);
    assert(model::plain(q) == model::plain(p).push(name));
    assert(model::plain(p).push(name).drop_last() =~= model::plain(p));
    let dots = Seq::<Seq<u8>>::empty().push(seq![46u8, 46u8]);
    assert(dots.drop_last() =~= Seq::empty());
    assert(model::plain(Seq::<Seq<u8>>::empty()).len() == 0);
    if forall|k: int| 0 <= k < p.len() ==> #[trigger] p[k] != seq![46u8, 46u8] {
        lemma_plain(p);
    }
}

proof fn lemma_plain(p: PathView)
    requires
        forall|k: int| 0 <= k < p.len() ==> #[trigger] p[k] != seq![46u8, 46u8],
    ensures
        model::plain(p) == p,
    decreases p.len(),
{
    if p.len() > 0 {
        assert forall|k: int| 0 <= k < p.drop_last().len() implies #[trigger] p.drop_last()[k]
            != seq![46u8, 46u8] by {
            assert(p[k] != seq![46u8, 46u8]);
        }
        lemma_plain(p.drop_last());
        assert(p.drop_last().push(p.last()) =~= p);
        assert(p[p.len() - 1] != seq![46u8, 46u8]);
    }
}

/// A path at which no symbolic link stands leads to itself. One at which a link stands leads
/// where the link's target leads, which counts from the root where it starts with a slash and
/// else from the directory of the link. Where it leads no link stands, and after more than forty
/// links it leads nowhere.
pub proof fn law_where_a_path_leads(disk: DiskView, p: PathView, target: Seq<u8>)
    ensures
        !(disk.nodes.contains_key(p) && disk.nodes[p] is Symlink) ==> model::followed(disk, p)
            == Some(p),
        model::followed(disk, p) matches Some(q) ==> !(disk.nodes.contains_key(q)
            && disk.nodes[q] is Symlink),
        disk.nodes.contains_key(p) && (disk.nodes[p] matches NodeView::Symlink(l) && l.target
            == target) ==> {
            let to = if target.len() > 0 && target[0] == 47u8 {
                model::plain(path::parse(target))
            } else if p.len() == 0 {
                model::plain(path::parse(target))
            } else {
                model::plain(p.take(p.len() - 1) + path::parse(target))
            };
            &&& model::followed(disk, p) is Some ==> model::followed(disk, p) == model::followed(
                disk,
                to,
            )
            &&& model::followed_by(disk, to, 39) is Some ==> model::followed(disk, p)
                == model::followed_by(disk, to, 39)
            &&& !(disk.nodes.contains_key(to) && disk.nodes[to] is Symlink) ==> model::followed(
                disk,
                p,
            ) == Some(to)
        },
        chain(disk, p, 41) ==> model::followed(disk, p) is None,
{
    lemma_leads_to_no_link(disk, p, 40);
    if p.len() > 0 {
        assert(p.drop_last() =~= p.take(p.len() - 1));
    } else {
        assert(p + path::parse(target) =~= path::parse(target));
    }
    if disk.nodes.contains_key(p) && (disk.nodes[p] matches NodeView::Symlink(l) && l.target
        == target) {
        let to = model::link_leads_to(p, target);
        lemma_more_links(disk, to, 39, 40);
    }
    if chain(disk, p, 41) {
        lemma_chain(disk, p, 40);
    }
}

/// Whether so many symbolic links start at the path, each where the one before leads.
pub open spec fn chain(disk: DiskView, p: PathView, n: nat) -> bool
    decreases n,
{
    n == 0 || (disk.nodes.contains_key(p) && (disk.nodes[p] matches NodeView::Symlink(l) && chain(
        disk,
        model::link_leads_to(p, l.target),
        (n - 1) as nat,
    )))
}

proof fn lemma_chain(disk: DiskView, p: PathView, links: nat)
    requires
        chain(disk, p, links + 1),
    ensures
        model::followed_by(disk, p, links) is None,
    decreases links,
{
    reveal_with_fuel(chain, 2);
    if links > 0 {
        let target = disk.nodes[p]->Symlink_0.target;
        lemma_chain(disk, model::link_leads_to(p, target), (links - 1) as nat);
    }
}

proof fn lemma_leads_to_no_link(disk: DiskView, p: PathView, links: nat)
    ensures
        model::followed_by(disk, p, links) matches Some(q) ==> !(disk.nodes.contains_key(q)
            && disk.nodes[q] is Symlink),
    decreases links,
{
    if let Some(target) = model::read_link(disk, p) {
        if links > 0 {
            lemma_leads_to_no_link(disk, model::link_leads_to(p, target), (links - 1) as nat);
        }
    }
}

proof fn lemma_more_links(disk: DiskView, p: PathView, few: nat, many: nat)
    requires
        few <= many,
    ensures
        model::followed_by(disk, p, few) is Some ==> model::followed_by(disk, p, many)
            == model::followed_by(disk, p, few),
    decreases few,
{
    if let Some(target) = model::read_link(disk, p) {
        if few > 0 {
            lemma_more_links(
                disk,
                model::link_leads_to(p, target),
                (few - 1) as nat,
                (many - 1) as nat,
            );
        }
    }
}

/// The metadata of what stands at a path say what it is: the bytes, times, permission bits and
/// number of names of a file, and the times and permission bits of a directory. A symbolic link
/// has metadata of its own only where it is not followed.
pub proof fn law_metadata(fs: FsView, p: PathView)
    ensures
        ({
            let n = fs.live.nodes;
            let (r, s) = (std_fs::metadata_at(fs, p), std_fs::symlink_metadata_at(fs, p));
            let missing = Err::<Metadata, Error>(
                Error { kind: ErrorKind::NotFound, cause: Cause::FileOrDirectoryNotFound },
            );
            if !n.contains_key(p) {
                r == missing && s == missing
            } else {
                match n[p] {
                    NodeView::File(ino) => {
                        let x = fs.live.files[ino];
                        &&& r == s
                        &&& r matches Ok(m)
                        &&& !m.is_dir && !m.is_symlink && m.len == x.content.len() as u64
                        &&& (m.crtime, m.mtime, m.ctime, m.mode) == (
                            x.crtime,
                            x.mtime,
                            x.ctime,
                            x.mode,
                        )
                        &&& m.nlink == Set::new(
                            |q: PathView| n.contains_key(q) && n[q] == NodeView::File(ino),
                        ).len() as u64
                    },
                    NodeView::Dir(d) => {
                        &&& r == s
                        &&& r matches Ok(m)
                        &&& m.is_dir && !m.is_symlink && m.len == 0 && m.nlink == 2
                        &&& (m.crtime, m.mtime, m.ctime, m.mode) == (
                            d.crtime,
                            d.mtime,
                            d.ctime,
                            d.mode,
                        )
                    },
                    NodeView::Symlink(l) => {
                        &&& r == missing
                        &&& s matches Ok(m)
                        &&& !m.is_dir && m.is_symlink && m.len == 0 && m.nlink == 1
                        &&& m.mode == 0o777
                        &&& (m.crtime, m.mtime, m.ctime) == (l.crtime, l.mtime, l.ctime)
                    },
                }
            }
        }),
{
    if fs.live.nodes.contains_key(p) {
        if let NodeView::File(ino) = fs.live.nodes[p] {
            assert(model::names_of(fs.live, ino) =~= Set::new(
                |q: PathView|
                    fs.live.nodes.contains_key(q) && fs.live.nodes[q] == NodeView::File(ino),
            ));
        }
    }
}

/// An operation takes no time without settings for it; a hundred nanoseconds where it finds its
/// page in the cache; and else the shortest time and what chance adds to it.
pub proof fn law_time_of_an_operation(
    fs: FsView,
    f: File,
    offset: u64,
    pace: Pace,
    scaled: Duration,
    hit: bool,
)
    requires
        fs.config.io_latency matches Some(l) ==> l.min_latency.nanos + scaled.nanos <= u128::MAX,
    ensures
        fs.config.io_latency is None ==> model::latency(fs.config, hit, scaled).nanos == 0,
        fs.config.io_latency matches Some(l) ==> {
            &&& hit && fs.config.page_cache is Some ==> model::latency(
                fs.config,
                hit,
                scaled,
            ).nanos == 100
            &&& !hit || fs.config.page_cache is None ==> model::latency(
                fs.config,
                hit,
                scaled,
            ).nanos == l.min_latency.nanos + scaled.nanos
        },
        fs.handles.contains_key(f.fd) && f.direct_io ==> tokio_fs::after_read(
            fs,
            f,
            offset,
            pace,
        ).0 == fs && tokio_fs::after_write(fs, f, offset) == fs,
{
}

/// A read finds its page where it goes through the cache, chance does not evict the page, and the
/// page of its file at its place is there. Pages are counted from the start of the file.
pub proof fn law_when_a_page_is_found(
    fs: FsView,
    p: PathView,
    offset: u64,
    direct: bool,
    evict: bool,
    pages: Seq<(PathView, u64)>,
    page: u64,
)
    requires
        fs.pages == Some(pages),
        fs.config.page_cache matches Some(c) && c.page_size > 0 && page == offset / c.page_size,
    ensures
        model::read_hits(fs, p, offset, direct, evict) <==> !direct && !evict && exists|i: int|
            0 <= i < pages.len() && #[trigger] pages[i] == (p, page),
{
    if exists|i: int| 0 <= i < pages.len() && #[trigger] pages[i] == (p, page) {
        assert(pages.contains((p, page)));
    }
}

/// A page that is read or written is the most recent one in the cache. Where the cache is full
/// the oldest pages leave until there is room. The other pages keep their order.
pub proof fn law_cached_page_is_the_most_recent(
    pages: Seq<(PathView, u64)>,
    max: nat,
    page: (PathView, u64),
)
    requires
        pages.no_duplicates(),
    ensures
        ({
            let after = cache::with_page(pages, max, page);
            let gone = if max > 0 && pages.len() >= max {
                pages.len() - max + 1
            } else {
                0
            };
            &&& after.len() > 0 && after.last() == page
            &&& after.drop_last() == pages.subrange(gone, pages.len() as int).filter(
                |q: (PathView, u64)| q != page,
            )
        }),
{
    let gone = if max > 0 && pages.len() >= max {
        pages.len() - max + 1
    } else {
        0
    };
    let room = cache::with_room(pages, max);
    assert(room =~= pages.subrange(gone, pages.len() as int));
    assert(room.no_duplicates());
    lemma_without(room, page);
    let after = cache::with_page(pages, max, page);
    assert(after.drop_last() =~= cache::without(room, page));
}

proof fn lemma_without(pages: Seq<(PathView, u64)>, page: (PathView, u64))
    requires
        pages.no_duplicates(),
    ensures
        cache::without(pages, page) == pages.filter(|q: (PathView, u64)| q != page),
    decreases pages.len(),
{
    reveal(Seq::filter);
    let keep = |q: (PathView, u64)| q != page;
    pages.index_of_first_ensures(page);
    if pages.len() == 0 {
        assert(pages.filter(keep) =~= pages);
    } else {
        let before = pages.drop_last();
        lemma_without(before, page);
        before.index_of_first_ensures(page);
        if let Some(j) = pages.index_of_first(page) {
            if j == pages.len() - 1 {
                assert(pages.remove(j) =~= before);
                if let Some(i) = before.index_of_first(page) {
                    assert(pages[i] == pages[j]);
                }
            } else {
                assert(before[j] == page);
                assert(before.contains(page));
                let i = before.index_of_first(page).unwrap();
                assert(pages[i] == pages[j]);
                assert(pages.remove(j) =~= before.remove(i).push(pages.last()));
                assert(pages[pages.len() - 1] != pages[j]);
            }
        } else {
            if before.contains(page) {
                let i = choose|i: int| 0 <= i < before.len() && before[i] == page;
                assert(pages[i] == page);
            }
            assert(pages[pages.len() - 1] != page);
            assert(before.push(pages.last()) =~= pages);
        }
    }
}

/// Looking a page up makes it the most recent one, unless chance evicts it; then it is gone.
/// The other pages keep their order, and nothing else changes.
pub proof fn law_page_that_is_looked_up(
    fs: FsView,
    p: PathView,
    offset: u64,
    evict: bool,
    pages: Seq<(PathView, u64)>,
    page: u64,
)
    requires
        fs.pages == Some(pages),
        pages.no_duplicates(),
        fs.config.page_cache matches Some(c) && c.page_size > 0 && page == offset / c.page_size,
    ensures
        ({
            let after = model::looked_up(fs, p, offset, evict);
            let others = pages.filter(|q: (PathView, u64)| q != (p, page));
            &&& (after.live, after.persisted, after.pending, after.handles) == (
                fs.live,
                fs.persisted,
                fs.pending,
                fs.handles,
            )
            &&& evict ==> after.pages == Some(others)
            &&& !evict && pages.contains((p, page)) ==> after.pages == Some(
                others.push((p, page)),
            )
            &&& !evict && !pages.contains((p, page)) ==> after.pages == Some(pages)
        }),
{
    lemma_without(pages, (p, page));
}

/// Whether the page is one of the file at the path.
pub open spec fn is_page_of(page: (PathView, u64), path: PathView) -> bool {
    page.0 == path
}

proof fn lemma_without_file(pages: Seq<(PathView, u64)>, p: PathView)
    ensures
        cache::without_file(pages, p) == pages.filter(|q: (PathView, u64)| !is_page_of(q, p)),
    decreases pages.len(),
{
    reveal(Seq::filter);
    if pages.len() > 0 {
        lemma_without_file(pages.drop_last(), p);
    }
}

/// The pages of a file that is cut or removed leave the cache, and those of a directory that is
/// removed as a whole leave it with all below. No others do.
pub proof fn law_pages_that_leave(fs: FsView, p: PathView, pages: Seq<(PathView, u64)>)
    requires
        fs.pages == Some(pages),
    ensures
        model::uncached(fs, p).pages == Some(
            pages.filter(|q: (PathView, u64)| !is_page_of(q, p)),
        ),
        model::uncached_tree(fs, p).pages == Some(
            pages.filter(|q: (PathView, u64)| !entry_laws::starts_with(q.0, p)),
        ),
        model::uncached(fs, p).live == fs.live && model::uncached_tree(fs, p).live == fs.live,
{
    lemma_without_file(pages, p);
    let a = |q: (PathView, u64)| !model::is_within(q.0, p);
    let b = |q: (PathView, u64)| !entry_laws::starts_with(q.0, p);
    assert forall|q: (PathView, u64)| #[trigger] a(q) == b(q) by {
        entry_laws::lemma_starts_with(q.0, p);
    }
    assert(a =~= b);
}

/// A file that is synced through a descriptor is made durable, and one that is closed cannot be.
pub proof fn law_sync_through_a_descriptor(fs: FsView, fd: u64)
    ensures
        ({
            let (after, r) = file::synced(fs, fd);
            &&& r is Ok <==> fs.handles.contains_key(fd)
            &&& r is Ok ==> after == model::file_synced(fs, fs.handles[fd].ino)
            &&& r is Err ==> after == fs && r == Err::<(), Error>(
                Error { kind: ErrorKind::NotFound, cause: Cause::HandleNotFound },
            )
        }),
{
}

/// A write through the cursor starts at the cursor, and at the end of the bytes in append mode. A
/// seek counts from the start, from the cursor or from the end of the bytes.
pub proof fn law_places_of_a_cursor(fs: FsView, f: File, start: u64, by: i64)
    requires
        fs.handles.contains_key(f.fd),
    ensures
        ({
            let content = fs.live.files[fs.handles[f.fd].ino].content;
            &&& !f.append_mode ==> f.write_offset(fs) == f.cursor
            &&& f.append_mode ==> f.write_offset(fs) == content.len() as u64
            &&& f.seek_target(fs, SeekFrom::Start(start)) == start
            &&& f.seek_target(fs, SeekFrom::Current(by)) == f.cursor + by
            &&& f.seek_target(fs, SeekFrom::End(by)) == content.len() + by
        }),
{
}

/// A new filesystem has a root directory with nothing in it, on the disk that programs see and on
/// the one that survives a crash.
pub proof fn law_new_filesystem(config: FsConfig)
    ensures
        ({
            let fs = state::empty_fs(config);
            let n = fs.live.nodes;
            &&& fs.persisted == fs.live && fs.pending.len() == 0 && fs.config == config
            &&& forall|p: PathView| #[trigger] n.contains_key(p) <==> p.len() == 0
            &&& n[Seq::<Seq<u8>>::empty()] matches NodeView::Dir(d) && d.mode == 0o755
                && d.crtime.nanos == 0 && d.mtime.nanos == 0 && d.ctime.nanos == 0
            &&& fs.live.files == Map::<u64, FileView>::empty()
            &&& fs.handles == Map::<u64, HandleView>::empty()
            &&& fs.pages is Some <==> config.page_cache is Some
            &&& fs.pages matches Some(pages) ==> pages.len() == 0
        }),
{
    let n = state::empty_fs(config).live.nodes;
    assert forall|p: PathView| #[trigger] n.contains_key(p) implies p.len() == 0 by {
        assert(p == Seq::<Seq<u8>>::empty());
    }
    assert forall|p: PathView| p.len() == 0 implies #[trigger] n.contains_key(p) by {
        assert(p =~= Seq::<Seq<u8>>::empty());
    }
}

/// The text of a file is what its bytes encode, and bytes that encode none give an error.
pub proof fn law_text_of_a_file(r: Result<String, Error>, bytes: Result<Seq<u8>, Error>)
    requires
        file::is_text_of(r, bytes),
    ensures
        bytes matches Err(e) ==> r == Err::<String, Error>(e),
        bytes matches Ok(b) ==> (r is Ok <==> vstd::utf8::valid_utf8(b)),
        r matches Ok(s) ==> bytes is Ok && s@ == vstd::utf8::decode_utf8(bytes->Ok_0),
        bytes is Ok && r is Err ==> r == Err::<String, Error>(
            Error { kind: ErrorKind::InvalidData, cause: Cause::NotUtf8 },
        ),
{
}

} // verus!
