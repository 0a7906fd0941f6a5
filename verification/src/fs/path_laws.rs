//! Laws of paths: what their texts name, and where they lead.
use crate::error::{Cause, Error, ErrorKind};
use crate::fs::model;
use crate::fs::model::{DiskView, NodeView};
use crate::fs::tree;
use crate::fs::tree::Turn;
use crate::path;
use crate::path::PathView;
use vstd::prelude::*;

verus! {

/// Whether the path leads from the root through directories, none of whose names is two dots.
pub open spec fn is_way(disk: DiskView, d: PathView) -> bool {
    &&& forall|n: int|
        0 <= n <= d.len() ==> disk.nodes.contains_key(#[trigger] d.take(n)) && disk.nodes[d.take(
            n,
        )] is Dir
    &&& forall|n: int| 0 <= n < d.len() ==> #[trigger] d[n] != seq![46u8, 46u8]
}

proof fn lemma_way(
    disk: DiskView,
    d: PathView,
    n: nat,
    rest: PathView,
    turns: Seq<Turn>,
    links: nat,
)
    requires
        is_way(disk, d),
        n <= d.len(),
        turns.len() == 0,
    ensures
        tree::walked(disk, d.take(n as int), d.skip(n as int) + rest, turns, links)
            == tree::walked(disk, d, rest, turns, links),
    decreases d.len() - n,
{
    if n == d.len() {
        assert(d.take(n as int) =~= d);
        assert(d.skip(n as int) + rest =~= rest);
    } else {
        let names = d.skip(n as int) + rest;
        assert(disk.nodes.contains_key(d.take(n as int)));
        assert(disk.nodes.contains_key(d.take((n + 1) as int)));
        assert(names[0] == d[n as int]);
        assert(names.skip(1) =~= d.skip((n + 1) as int) + rest);
        assert(d.take(n as int).push(names[0]) =~= d.take((n + 1) as int));
        lemma_way(disk, d, n + 1, rest, turns, links);
    }
}

proof fn lemma_start(disk: DiskView, d: PathView, rest: PathView)
    requires
        is_way(disk, d),
    ensures
        tree::walked(disk, Seq::empty(), d + rest, Seq::empty(), 40) == tree::walked(
            disk,
            d,
            rest,
            Seq::empty(),
            40,
        ),
{
    lemma_way(disk, d, 0, rest, Seq::empty(), 40);
    assert(d.take(0) =~= Seq::empty());
    assert(d.skip(0) =~= d);
}

/// A path through directories that ends at a file or directory is its own canonical path.
pub proof fn law_plain_path_is_canonical(disk: DiskView, d: PathView, name: Seq<u8>)
    requires
        is_way(disk, d),
        name != seq![46u8, 46u8],
    ensures
        tree::canonical(disk, d) == Ok::<PathView, Error>(d),
        disk.nodes.contains_key(d.push(name)) && !(disk.nodes[d.push(name)] is Symlink)
            ==> tree::canonical(disk, d.push(name)) == Ok::<PathView, Error>(d.push(name)),
        !disk.nodes.contains_key(d.push(name)) ==> tree::canonical(disk, d.push(name)) == Err::<
            PathView,
            Error,
        >(Error { kind: ErrorKind::NotFound, cause: Cause::PathNotFound }),
{
    lemma_start(disk, d, Seq::empty());
    assert(d + Seq::<Seq<u8>>::empty() =~= d);
    assert(d.take(d.len() as int) =~= d);
    assert(disk.nodes.contains_key(d.take(d.len() as int)));
    let rest = seq![name];
    lemma_start(disk, d, rest);
    assert(d + rest =~= d.push(name));
    assert(rest.skip(1) =~= Seq::empty());
    let open = tree::open_turns(Seq::empty(), 1);
    assert(tree::walked(disk, d.push(name), Seq::empty(), open, 40) == Ok::<PathView, Error>(
        d.push(name),
    ));
}

/// Two dots lead from a directory to the one that it stands in, and from the root to the root.
pub proof fn law_two_dots_lead_upwards(disk: DiskView, d: PathView, rest: PathView)
    requires
        is_way(disk, d),
    ensures
        d.len() > 0 ==> tree::canonical(disk, d.push(seq![46u8, 46u8]) + rest) == tree::canonical(
            disk,
            d.take(d.len() - 1) + rest,
        ),
        d.len() == 0 ==> tree::canonical(disk, d.push(seq![46u8, 46u8]) + rest) == tree::canonical(
            disk,
            rest,
        ),
{
    let dots = seq![46u8, 46u8];
    let names = seq![dots] + rest;
    lemma_start(disk, d, names);
    assert(d + names =~= d.push(dots) + rest);
    assert(names.skip(1) =~= rest);
    assert(d.take(d.len() as int) =~= d);
    assert(disk.nodes.contains_key(d.take(d.len() as int)));
    assert(tree::open_turns(Seq::empty(), names.len()) =~= Seq::empty());
    if d.len() > 0 {
        let up = d.take(d.len() - 1);
        assert(d.drop_last() =~= up);
        assert forall|n: int| 0 <= n <= up.len() implies disk.nodes.contains_key(
            #[trigger] up.take(n),
        ) && disk.nodes[up.take(n)] is Dir by {
            assert(up.take(n) =~= d.take(n));
        }
        assert forall|n: int| 0 <= n < up.len() implies #[trigger] up[n] != seq![46u8, 46u8] by {
            assert(d[n] != seq![46u8, 46u8]);
        }
        lemma_start(disk, up, rest);
    } else {
        assert(d =~= Seq::empty());
    }
}

/// Behind anything but a directory a path leads nowhere.
pub proof fn law_only_directories_lead_on(disk: DiskView, d: PathView, name: Seq<u8>, rest: PathView)
    requires
        is_way(disk, d),
        name != seq![46u8, 46u8],
        rest.len() > 0,
        !disk.nodes.contains_key(d.push(name)) || disk.nodes[d.push(name)] is File,
    ensures
        tree::canonical(disk, d.push(name) + rest) == Err::<PathView, Error>(
            Error { kind: ErrorKind::NotFound, cause: Cause::PathNotFound },
        ),
{
    let names = seq![name] + rest;
    lemma_start(disk, d, names);
    assert(d + names =~= d.push(name) + rest);
    assert(names.skip(1) =~= rest);
    assert(d.take(d.len() as int) =~= d);
    assert(disk.nodes.contains_key(d.take(d.len() as int)));
    reveal_with_fuel(tree::walked, 2);
}

/// A path through a symbolic link leads where the link's target followed by the rest of the path
/// leads. The target counts from the root where it starts with a slash, and else from the
/// directory of the link.
pub proof fn law_links_are_replaced_by_their_targets(
    disk: DiskView,
    d: PathView,
    name: Seq<u8>,
    target: Seq<u8>,
    rest: PathView,
)
    requires
        is_way(disk, d),
        name != seq![46u8, 46u8],
        disk.nodes.contains_key(d.push(name)),
        disk.nodes[d.push(name)] matches NodeView::Symlink(l) && l.target == target,
    ensures
        tree::canonical(disk, d.push(name) + rest) matches Ok(p) ==> {
            &&& target.len() > 0 && target[0] == 47u8 ==> tree::canonical(
                disk,
                path::parse(target) + rest,
            ) == Ok::<PathView, Error>(p)
            &&& !(target.len() > 0 && target[0] == 47u8) ==> tree::canonical(
                disk,
                d + path::parse(target) + rest,
            ) == Ok::<PathView, Error>(p)
        },
{
    let here = d.push(name);
    let names = seq![name] + rest;
    lemma_start(disk, d, names);
    assert(d + names =~= here + rest);
    assert(names.skip(1) =~= rest);
    assert(names[0] == name);
    assert(d.take(d.len() as int) =~= d);
    assert(disk.nodes.contains_key(d.take(d.len() as int)));
    let open = tree::open_turns(Seq::empty(), names.len());
    assert(open =~= Seq::empty());
    let before = seq![(here, rest.len())];
    assert(open.push((here, rest.len())) =~= before);
    assert(before + Seq::<Turn>::empty() =~= before);
    let place = if path::is_absolute(target) {
        Seq::empty()
    } else {
        d
    };
    let onward = path::parse(target) + rest;
    lemma_more_room(disk, place, onward, before, Seq::empty(), 39, 40);
    if !path::is_absolute(target) {
        lemma_start(disk, d, onward);
        assert(d + onward =~= d + path::parse(target) + rest);
    }
}

/// What is open of some links in front of others is some of the first with what is open of the
/// others.
proof fn lemma_open_turns(before: Seq<Turn>, turns: Seq<Turn>, left: nat) -> (kept: Seq<Turn>)
    ensures
        tree::open_turns(before + turns, left) == kept + tree::open_turns(turns, left),
    decreases turns.len(),
{
    let all = before + turns;
    if turns.len() == 0 {
        assert(all =~= before);
        let kept = tree::open_turns(before, left);
        assert(kept + tree::open_turns(turns, left) =~= kept);
        kept
    } else {
        assert(all.last() == turns.last());
        if turns.last().1 < left {
            before
        } else {
            assert(all.drop_last() =~= before + turns.drop_last());
            lemma_open_turns(before, turns.drop_last(), left)
        }
    }
}

proof fn lemma_more_room(
    disk: DiskView,
    place: PathView,
    names: PathView,
    before: Seq<Turn>,
    turns: Seq<Turn>,
    few: nat,
    many: nat,
)
    requires
        few <= many,
    ensures
        tree::walked(disk, place, names, before + turns, few) matches Ok(p) ==> tree::walked(
            disk,
            place,
            names,
            turns,
            many,
        ) == Ok::<PathView, Error>(p),
    decreases few, names.len(),
{
    if names.len() > 0 && model::dir_exists(disk, place) {
        let rest = names.skip(1);
        let open = tree::open_turns(turns, names.len());
        let kept = lemma_open_turns(before, turns, names.len());
        let here = place.push(names[0]);
        if path::is_dotdot(names[0]) {
            lemma_more_room(disk, model::above(place), rest, kept, open, few, many);
        } else {
            match model::read_link(disk, here) {
                None => {
                    if model::anything_at(disk, here) {
                        lemma_more_room(disk, here, rest, kept, open, few, many);
                    }
                },
                Some(target) => {
                    if few > 0 && !tree::is_turning(kept + open, here) {
                        if tree::is_turning(open, here) {
                            let i = choose|i: int|
                                0 <= i < open.len() && #[trigger] open[i].0 == here;
                            assert((kept + open)[kept.len() + i].0 == here);
                        }
                        let start = if path::is_absolute(target) {
                            Seq::empty()
                        } else {
                            place
                        };
                        let turn = (here, rest.len());
                        assert((kept + open).push(turn) =~= kept + open.push(turn));
                        lemma_more_room(
                            disk,
                            start,
                            path::parse(target) + rest,
                            kept,
                            open.push(turn),
                            (few - 1) as nat,
                            (many - 1) as nat,
                        );
                    }
                },
            }
        }
    }
}

/// A further piece of a text behind a slash is a further name, unless it is empty or a single
/// dot; these name nothing.
pub proof fn law_pieces_of_a_text(a: Seq<u8>, piece: Seq<u8>)
    requires
        forall|k: int| 0 <= k < piece.len() ==> #[trigger] piece[k] != 47u8,
    ensures
        piece.len() == 0 || piece == seq![46u8] ==> path::parse(a + seq![47u8] + piece)
            == path::parse(a),
        piece.len() > 0 && piece != seq![46u8] ==> path::parse(a + seq![47u8] + piece)
            == path::parse(a).push(piece),
        path::parse(Seq::empty()) == Seq::<Seq<u8>>::empty(),
{
    lemma_one_more_piece(a, piece, 0);
    assert(path::parse(Seq::empty()) =~= Seq::<Seq<u8>>::empty());
    if piece.len() > 0 && piece != seq![46u8] {
        assert(path::parse(a) + seq![piece] =~= path::parse(a).push(piece));
    }
}

proof fn lemma_slash(a: Seq<u8>, piece: Seq<u8>, from: int)
    requires
        0 <= from <= a.len(),
    ensures
        path::next_slash(a + seq![47u8] + piece, from) == path::next_slash(a, from),
    decreases a.len() - from,
{
    let raw = a + seq![47u8] + piece;
    if from < a.len() {
        assert(raw[from] == a[from]);
        if a[from] != 47u8 {
            lemma_slash(a, piece, from + 1);
        }
    } else {
        assert(raw[from] == 47u8);
    }
}

proof fn lemma_last_slash(raw: Seq<u8>, from: int)
    requires
        0 <= from <= raw.len(),
        forall|i: int| from <= i < raw.len() ==> #[trigger] raw[i] != 47u8,
    ensures
        path::next_slash(raw, from) == raw.len(),
    decreases raw.len() - from,
{
    if from < raw.len() {
        assert(raw[from] != 47u8);
        lemma_last_slash(raw, from + 1);
    }
}

proof fn lemma_one_more_piece(a: Seq<u8>, piece: Seq<u8>, from: int)
    requires
        0 <= from <= a.len(),
        forall|k: int| 0 <= k < piece.len() ==> #[trigger] piece[k] != 47u8,
    ensures
        path::names_from(a + seq![47u8] + piece, from) == (if piece.len() == 0 || piece
            == seq![46u8] {
            path::names_from(a, from)
        } else {
            path::names_from(a, from) + seq![piece]
        }),
    decreases a.len() - from,
{
    let raw = a + seq![47u8] + piece;
    let n = a.len() as int;
    lemma_slash(a, piece, from);
    path::lemma_next_slash(a, from);
    path::lemma_next_slash(raw, from);
    if from == n {
        assert forall|i: int| n + 1 <= i < raw.len() implies #[trigger] raw[i] != 47u8 by {
            assert(raw[i] == piece[i - n - 1]);
        }
        lemma_last_slash(raw, n + 1);
        assert(raw.subrange(n + 1, raw.len() as int) =~= piece);
        assert(path::names_from(raw, raw.len() as int) =~= seq![]);
        assert(path::names_from(a, from) =~= seq![]);
        assert(path::names_from(raw, n) == path::names_from(raw, n + 1));
        if piece.len() > 0 {
            assert(path::names_from(raw, n + 1) =~= (if piece == seq![46u8] {
                seq![]
            } else {
                seq![piece]
            }));
        }
        assert(path::names_from(a, from) + seq![piece] =~= seq![piece]);
    } else {
        let end = path::next_slash(a, from);
        assert(raw.subrange(from, end) =~= a.subrange(from, end));
        if end <= from {
            lemma_one_more_piece(a, piece, from + 1);
        } else {
            lemma_one_more_piece(a, piece, end);
            let first = a.subrange(from, end);
            if !path::is_idle(first) {
                assert(seq![first] + (path::names_from(a, end) + seq![piece]) =~= (seq![first]
                    + path::names_from(a, end)) + seq![piece]);
            }
        }
    }
}

/// The text of a path is that of its directory with a slash and its name behind it; that of the
/// root is a slash.
pub proof fn law_text_of_a_path(p: PathView, name: Seq<u8>)
    ensures
        path::render(Seq::empty()) == seq![47u8],
        p.len() == 0 ==> path::render(p.push(name)) == seq![47u8] + name,
        p.len() > 0 ==> path::render(p.push(name)) == path::render(p) + seq![47u8] + name,
{
    assert(p.push(name).drop_last() =~= p);
}

} // verus!
