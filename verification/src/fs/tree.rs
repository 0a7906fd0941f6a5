//! Canonical paths, and removing whole directories.
use crate::error::{Cause, Error, ErrorKind};
use crate::fs::model;
use crate::fs::model::{DiskView, OpView, MAX_SYMLINK_FOLLOWS};
use crate::fs::state::Fs;
use crate::path;
use crate::path::{has_root, names_parent, PathBuf, PathView};
use crate::time::Duration;
use vstd::prelude::*;

verus! {

/// A symbolic link on the way to a canonical path, and how many names were left behind it.
pub type Turn = (PathView, nat);

/// The links whose targets are not gone through yet when so many names are left.
pub open spec fn open_turns(turns: Seq<Turn>, left: nat) -> Seq<Turn>
    decreases turns.len(),
{
    if turns.len() == 0 || turns.last().1 < left {
        turns
    } else {
        open_turns(turns.drop_last(), left)
    }
}

/// Whether the way leads through the symbolic link while its target is gone through.
pub open spec fn is_turning(turns: Seq<Turn>, link: PathView) -> bool {
    exists|i: int| 0 <= i < turns.len() && #[trigger] turns[i].0 == link
}

/// What a path that leads nowhere gives.
pub open spec fn nowhere() -> Result<PathView, Error> {
    Err(Error { kind: ErrorKind::NotFound, cause: Cause::PathNotFound })
}

/// Where the names lead from `place`. Every name leads on from a directory: two dots to the
/// one above, the name of a symbolic link to wherever its target leads, and any other name to
/// the entry with it. `turns` are the links on the way whose targets are not gone through yet,
/// and so many `links` may still be followed.
pub open spec fn walked(
    disk: DiskView,
    place: PathView,
    names: PathView,
    turns: Seq<Turn>,
    links: nat,
) -> Result<PathView, Error>
    decreases links, names.len(),
{
    if names.len() == 0 {
        Ok(place)
    } else if !model::dir_exists(disk, place) {
        nowhere()
    } else {
        let rest = names.skip(1);
        let open = open_turns(turns, names.len());
        let here = place.push(names[0]);
        if path::is_dotdot(names[0]) {
            walked(disk, model::above(place), rest, open, links)
        } else {
            match model::read_link(disk, here) {
                None => if model::anything_at(disk, here) {
                    walked(disk, here, rest, open, links)
                } else {
                    nowhere()
                },
                Some(target) => if links == 0 {
                    Err(Error { kind: ErrorKind::Other, cause: Cause::TooManyLinks })
                } else if is_turning(open, here) {
                    Err(Error { kind: ErrorKind::Other, cause: Cause::LinkLoop })
                } else {
                    walked(
                        disk,
                        if path::is_absolute(target) {
                            Seq::empty()
                        } else {
                            place
                        },
                        path::parse(target) + rest,
                        open.push((here, rest.len())),
                        (links - 1) as nat,
                    )
                },
            }
        }
    }
}

/// The path without dots and symbolic links that leads to where the names lead.
pub open spec fn canonical(disk: DiskView, names: PathView) -> Result<PathView, Error> {
    match walked(disk, Seq::empty(), names, Seq::empty(), MAX_SYMLINK_FOLLOWS as nat) {
        Ok(place) => if model::file_exists(disk, place) || model::dir_exists(disk, place) {
            Ok(place)
        } else {
            nowhere()
        },
        Err(e) => Err(e),
    }
}

/// What the links on the way are.
spec fn turns_view(turns: Seq<(PathBuf, usize)>) -> Seq<Turn> {
    Seq::new(turns.len(), |i: int| (turns[i].0@, turns[i].1 as nat))
}

/// Drops the links whose targets are gone through when so many names are left.
fn close_turns(turns: &mut Vec<(PathBuf, usize)>, left: usize)
    ensures
        turns_view(final(turns)@) == open_turns(turns_view(old(turns)@), left as nat),
{
    let ghost end = open_turns(turns_view(turns@), left as nat);
    while turns.len() > 0 && turns[turns.len() - 1].1 >= left
        invariant
            open_turns(turns_view(turns@), left as nat) == end,
        decreases turns.len(),
    {
        let ghost before = turns_view(turns@);
        let _ = turns.pop();
        proof {
            assert(turns_view(turns@) =~= before.drop_last());
        }
    }
}

fn has_turn(turns: &Vec<(PathBuf, usize)>, link: &PathBuf) -> (r: bool)
    ensures
        r == is_turning(turns_view(turns@), link@),
{
    let mut i: usize = 0;
    while i < turns.len()
        invariant
            i <= turns.len(),
            forall|j: int| 0 <= j < i ==> #[trigger] turns_view(turns@)[j].0 != link@,
        decreases turns.len() - i,
    {
        if turns[i].0.same(link) {
            proof {
                assert(turns_view(turns@)[i as int].0 == link@);
            }
            return true;
        }
        i += 1;
    }
    false
}

/// The canonical path of the path: absolute, without dots, and with all symbolic links
/// followed. The path has to exist, and symbolic links that lead back to themselves are
/// an error.
pub fn canonicalize(fs: &Fs, path: &[u8]) -> (r: Result<PathBuf, Error>)
    ensures
        match canonical(fs@.live, path::parse(path@)) {
            Ok(p) => r is Ok && r->Ok_0@ == p,
            Err(e) => r == Err::<PathBuf, Error>(e),
        },
{
    let mut names = PathBuf::new(path);
    let mut place = PathBuf::root();
    let mut turns: Vec<(PathBuf, usize)> = Vec::new();
    let mut links: usize = MAX_SYMLINK_FOLLOWS;
    let ghost end = walked(
        fs@.live,
        Seq::empty(),
        path::parse(path@),
        Seq::empty(),
        MAX_SYMLINK_FOLLOWS as nat,
    );
    proof {
        assert(turns_view(turns@) =~= Seq::empty());
    }
    while names.depth() > 0
        invariant
            walked(fs@.live, place@, names@, turns_view(turns@), links as nat) == end,
            end == walked(
                fs@.live,
                Seq::empty(),
                path::parse(path@),
                Seq::empty(),
                MAX_SYMLINK_FOLLOWS as nat,
            ),
        decreases links, names@.len(),
    {
        if !fs.dir_exists(&place) {
            return Err(Error::not_found(Cause::PathNotFound));
        }
        let left: usize = names.depth();
        close_turns(&mut turns, left);
        let name = names.name_at(0);
        let mut first = PathBuf::root();
        first.push_name(names.name_at(0));
        let root = PathBuf::root();
        if names_parent(&name) {
            place.pop();
            let ghost rest = names@.skip(1);
            names = names.moved(&first, &root);
            proof {
                assert(names@ =~= rest);
            }
        } else {
            let mut here = place.clone();
            here.push_name(name);
            match fs.read_link(&here) {
                Err(_) => {
                    if !fs.anything_at(&here) {
                        return Err(Error::not_found(Cause::PathNotFound));
                    }
                    place = here;
                    let ghost rest = names@.skip(1);
                    names = names.moved(&first, &root);
                    proof {
                        assert(names@ =~= rest);
                    }
                },
                Ok(target) => {
                    if links == 0 {
                        return Err(Error::other(Cause::TooManyLinks));
                    }
                    if has_turn(&turns, &here) {
                        return Err(Error::other(Cause::LinkLoop));
                    }
                    links -= 1;
                    let ghost before = turns_view(turns@);
                    let ghost turn = (here@, (left - 1) as nat);
                    turns.push((here, left - 1));
                    proof {
                        assert(turns_view(turns@) =~= before.push(turn));
                    }
                    if has_root(&target) {
                        place = PathBuf::root();
                    }
                    names = names.moved(&first, &PathBuf::new(target.as_slice()));
                },
            }
        }
    }
    if !fs.file_exists(&place) && !fs.dir_exists(&place) {
        return Err(Error::not_found(Cause::PathNotFound));
    }
    Ok(place)
}

/// Whether nothing stands at the directory or below it any more, everything else still stands,
/// and none of it has changed but for the directory that held the removed one.
pub open spec fn tree_removed(before: DiskView, after: DiskView, dir: PathView) -> bool {
    &&& forall|p: PathView|
        model::is_within(p, dir) ==> !#[trigger] model::anything_at(after, p)
    &&& forall|p: PathView|
        !model::is_within(p, dir) ==> #[trigger] model::anything_at(after, p)
            == model::anything_at(before, p)
    &&& forall|p: PathView|
        model::anything_at(after, p) && !path::is_child(dir, p) ==> #[trigger] after.nodes[p]
            == before.nodes[p]
    &&& after.files == before.files
}

/// Removes a directory with all that stands below it.
///
/// Symbolic links below it are removed, not followed.
pub fn remove_dir_all(fs: &mut Fs, now: Duration, path: &[u8]) -> (r: Result<(), Error>)
    requires
        old(fs).wf(),
    ensures
        final(fs).wf(),
        match r {
            Ok(_) => {
                let dir = path::parse(path@);
                &&& model::dir_exists(old(fs)@.live, dir)
                &&& final(fs)@ == model::pushed(
                    model::uncached_tree(old(fs)@, dir),
                    OpView::RemoveTree { path: dir, time: now },
                )
                &&& tree_removed(old(fs)@.live, final(fs)@.live, dir)
            },
            Err(e) => {
                &&& !model::dir_exists(old(fs)@.live, path::parse(path@))
                &&& e == (Error { kind: ErrorKind::NotFound, cause: Cause::DirectoryNotFound })
                &&& final(fs)@ == old(fs)@
            },
        },
{
    let dir = PathBuf::new(path);
    match fs.remove_tree(&dir, now) {
        Ok(_) => {
            proof {
                if dir@.len() > 0 {
                    assert(!model::is_within(dir@.drop_last(), dir@));
                }
            }
            Ok(())
        },
        Err(cause) => Err(Error::not_found(cause)),
    }
}

} // verus!
