//! Paths of the simulated filesystem.
//!
//! A path is the sequence of the names that lead to it from the root. The root is the
//! empty sequence. There is no working directory: a path that is written without a
//! leading slash starts at the root too.
use vstd::prelude::*;

verus! {

/// The byte `/`.
pub const SLASH: u8 = 47;

/// The byte `.`.
pub const DOT: u8 = 46;

/// What a path is: the names that lead to it from the root.
pub type PathView = Seq<Seq<u8>>;

/// Where the first slash at or after `from` stands, or the length where there is none.
pub open spec fn next_slash(raw: Seq<u8>, from: int) -> int
    decreases raw.len() - from,
{
    if from >= raw.len() {
        raw.len() as int
    } else if raw[from] == SLASH {
        from
    } else {
        next_slash(raw, from + 1)
    }
}

/// Whether a piece between two slashes names nothing: it is empty or a single dot.
pub open spec fn is_idle(piece: Seq<u8>) -> bool {
    piece.len() == 0 || piece == seq![DOT]
}

/// Whether a name leads to the parent directory: it is two dots.
pub open spec fn is_dotdot(name: Seq<u8>) -> bool {
    name == seq![DOT, DOT]
}

/// The names in `raw` from the byte `from` on: its pieces between slashes, without
/// those that name nothing.
pub open spec fn names_from(raw: Seq<u8>, from: int) -> PathView
    decreases raw.len() - from,
{
    if from < 0 || from >= raw.len() {
        seq![]
    } else {
        proof {
            lemma_next_slash(raw, from);
        }
        let end = next_slash(raw, from);
        let piece = raw.subrange(from, end);
        if end <= from {
            names_from(raw, from + 1)
        } else if is_idle(piece) {
            names_from(raw, end)
        } else {
            seq![piece] + names_from(raw, end)
        }
    }
}

/// The path that `raw` is the text of.
pub open spec fn parse(raw: Seq<u8>) -> PathView {
    names_from(raw, 0)
}

/// Whether the text starts at the root.
pub open spec fn is_absolute(raw: Seq<u8>) -> bool {
    raw.len() > 0 && raw[0] == SLASH
}

/// The directory that holds the path; the root is in none.
pub open spec fn parent(path: PathView) -> Option<PathView> {
    if path.len() == 0 {
        None
    } else {
        Some(path.drop_last())
    }
}

/// Whether the path stands directly in the directory.
pub open spec fn is_child(path: PathView, dir: PathView) -> bool {
    path.len() > 0 && path.drop_last() == dir
}

/// The text of a path: each name behind a slash, and a lone slash for the root.
pub open spec fn render(path: PathView) -> Seq<u8>
    decreases path.len(),
{
    if path.len() == 0 {
        seq![SLASH]
    } else if path.len() == 1 {
        seq![SLASH] + path[0]
    } else {
        render(path.drop_last()) + seq![SLASH] + path.last()
    }
}

/// The first slash from a place on is the next one, and it is a slash.
pub proof fn lemma_next_slash(raw: Seq<u8>, from: int)
    requires
        0 <= from,
    ensures
        from <= raw.len() ==> from <= next_slash(raw, from) <= raw.len(),
        next_slash(raw, from) < raw.len() ==> raw[next_slash(raw, from)] == SLASH,
        forall|i: int| from <= i < next_slash(raw, from) ==> raw[i] != SLASH,
    decreases raw.len() - from,
{
    if from < raw.len() && raw[from] != SLASH {
        lemma_next_slash(raw, from + 1);
    }
}

/// Whether the two byte strings are equal.
pub fn bytes_eq(a: &Vec<u8>, b: &Vec<u8>) -> (r: bool)
    ensures
        r == (a@ == b@),
{
    if a.len() != b.len() {
        return false;
    }
    let mut i: usize = 0;
    while i < a.len()
        invariant
            i <= a.len(),
            a.len() == b.len(),
            forall|j: int| 0 <= j < i ==> a@[j] == b@[j],
        decreases a.len() - i,
    {
        if a[i] != b[i] {
            return false;
        }
        i += 1;
    }
    proof {
        assert(a@ =~= b@);
    }
    true
}

/// A copy of the bytes.
pub fn bytes_copy(a: &Vec<u8>) -> (r: Vec<u8>)
    ensures
        r@ == a@,
{
    vstd::slice::slice_to_vec(a.as_slice())
}

/// Whether the text starts at the root.
pub fn has_root(raw: &Vec<u8>) -> (r: bool)
    ensures
        r == is_absolute(raw@),
{
    raw.len() > 0 && raw[0] == SLASH
}

/// Whether the name leads to the parent directory.
pub fn names_parent(name: &Vec<u8>) -> (r: bool)
    ensures
        r == is_dotdot(name@),
{
    let dots: Vec<u8> = vec![DOT, DOT];
    proof {
        assert(dots@ =~= seq![DOT, DOT]);
    }
    bytes_eq(name, &dots)
}

/// A path of the simulated filesystem.
#[derive(Debug)]
pub struct PathBuf {
    /// The names that lead to the path from the root.
    pub(crate) names: Vec<Vec<u8>>,
}

impl View for PathBuf {
    type V = PathView;

    closed spec fn view(&self) -> PathView {
        Seq::new(self.names@.len(), |i: int| self.names@[i]@)
    }
}

impl Clone for PathBuf {
    fn clone(&self) -> (r: PathBuf)
        ensures
            r@ == self@,
    {
        let mut names: Vec<Vec<u8>> = Vec::new();
        let mut i: usize = 0;
        while i < self.names.len()
            invariant
                i <= self.names.len(),
                names.len() == i,
                forall|j: int| 0 <= j < i ==> names@[j]@ == self.names@[j]@,
            decreases self.names.len() - i,
        {
            names.push(bytes_copy(&self.names[i]));
            i += 1;
        }
        let r = PathBuf { names };
        proof {
            assert(r@ =~= self@);
        }
        r
    }
}

impl PathBuf {
    /// The root.
    pub fn root() -> (r: PathBuf)
        ensures
            r@ == PathView::empty(),
    {
        let r = PathBuf { names: Vec::new() };
        proof {
            assert(r@ =~= PathView::empty());
        }
        r
    }

    /// The path that `raw` is the text of.
    pub fn new(raw: &[u8]) -> (r: PathBuf)
        ensures
            r@ == parse(raw@),
    {
        let mut r = PathBuf::root();
        r.append(raw);
        proof {
            assert(PathView::empty() + parse(raw@) =~= parse(raw@));
        }
        r
    }

    /// Goes on from the path by the names that `raw` is the text of.
    pub fn append(&mut self, raw: &[u8])
        ensures
            final(self)@ == old(self)@ + parse(raw@),
    {
        let mut from: usize = 0;
        proof {
            assert(self@ + parse(raw@) =~= old(self)@ + names_from(raw@, 0));
        }
        while from < raw.len()
            invariant
                from <= raw.len(),
                self@ + names_from(raw@, from as int) == old(self)@ + parse(raw@),
            decreases raw.len() - from,
        {
            let mut end: usize = from;
            while end < raw.len() && raw[end] != SLASH
                invariant
                    from <= end <= raw.len(),
                    next_slash(raw@, from as int) == next_slash(raw@, end as int),
                decreases raw.len() - end,
            {
                end += 1;
            }
            proof {
                assert(next_slash(raw@, from as int) == end);
            }
            if end == from {
                from += 1;
            } else {
                let idle = end - from == 1 && raw[from] == DOT;
                let piece: Vec<u8> = vstd::slice::slice_to_vec(
                    vstd::slice::slice_subrange(raw, from, end),
                );
                proof {
                    let ghost_piece = raw@.subrange(from as int, end as int);
                    assert(piece@ == ghost_piece);
                    if idle {
                        assert(ghost_piece =~= seq![DOT]);
                    } else if ghost_piece == seq![DOT] {
                        assert(ghost_piece[0] == raw@[from as int]);
                        assert(false);
                    }
                    assert(idle == is_idle(ghost_piece));
                }
                if !idle {
                    let ghost before = self@;
                    self.push_name(piece);
                    proof {
                        assert(self@ + names_from(raw@, end as int) =~= before + (seq![piece@]
                            + names_from(raw@, end as int)));
                    }
                }
                from = end;
            }
        }
        proof {
            assert(self@ + names_from(raw@, from as int) =~= self@);
        }
    }

    /// Goes on from the path by one name.
    pub fn push_name(&mut self, name: Vec<u8>)
        ensures
            final(self)@ == old(self)@.push(name@),
    {
        self.names.push(name);
        proof {
            assert(self@ =~= old(self)@.push(name@));
        }
    }

    /// Drops the last name; the root stays.
    pub fn pop(&mut self)
        ensures
            final(self)@ == (if old(self)@.len() == 0 { old(self)@ } else { old(self)@.drop_last() }),
    {
        let _ = self.names.pop();
        proof {
            if old(self)@.len() == 0 {
                assert(self@ =~= old(self)@);
            } else {
                assert(self@ =~= old(self)@.drop_last());
            }
        }
    }

    /// The directory that holds the path, or nothing for the root.
    pub fn parent(&self) -> (r: Option<PathBuf>)
        ensures
            match r {
                Some(p) => parent(self@) == Some(p@),
                None => parent(self@) is None,
            },
    {
        if self.names.len() == 0 {
            None
        } else {
            let mut p = self.clone();
            p.pop();
            Some(p)
        }
    }

    /// The last name of the path, or nothing for the root.
    pub fn file_name(&self) -> (r: Option<Vec<u8>>)
        ensures
            match r {
                Some(n) => self@.len() > 0 && n@ == self@.last(),
                None => self@.len() == 0,
            },
    {
        let n: usize = self.names.len();
        if n == 0 {
            None
        } else {
            Some(bytes_copy(&self.names[n - 1]))
        }
    }

    /// The number of names in the path.
    pub fn depth(&self) -> (r: usize)
        ensures
            r == self@.len(),
    {
        self.names.len()
    }

    /// The name at the index.
    pub fn name_at(&self, i: usize) -> (r: Vec<u8>)
        requires
            i < self@.len(),
        ensures
            r@ == self@[i as int],
    {
        bytes_copy(&self.names[i])
    }

    /// Whether the two paths are the same.
    pub fn same(&self, other: &PathBuf) -> (r: bool)
        ensures
            r == (self@ == other@),
    {
        proof {
            assert(self@.len() == self.names@.len());
            assert(other@.len() == other.names@.len());
        }
        self.names.len() == other.names.len() && self.shares(other, self.names.len())
    }

    /// Whether the first `n` names of the two paths are the same.
    fn shares(&self, other: &PathBuf, n: usize) -> (r: bool)
        requires
            n <= self@.len(),
            n <= other@.len(),
        ensures
            r == (self@.take(n as int) == other@.take(n as int)),
            n == self@.len() && n == other@.len() ==> r == (self@ == other@),
    {
        let mut i: usize = 0;
        while i < n
            invariant
                i <= n,
                n <= self@.len(),
                n <= other@.len(),
                forall|j: int| 0 <= j < i ==> self@[j] == other@[j],
            decreases n - i,
        {
            if !bytes_eq(&self.names[i], &other.names[i]) {
                proof {
                    assert(self@.take(n as int)[i as int] == self@[i as int]);
                    assert(other@.take(n as int)[i as int] == other@[i as int]);
                    assert(self@[i as int] != other@[i as int]);
                }
                return false;
            }
            i += 1;
        }
        proof {
            assert(self@.take(n as int) =~= other@.take(n as int));
            if n == self@.len() && n == other@.len() {
                assert(self@ =~= other@);
            }
        }
        true
    }

    /// Whether the path stands directly in the directory.
    pub fn is_in(&self, dir: &PathBuf) -> (r: bool)
        ensures
            r == is_child(self@, dir@),
    {
        let n: usize = self.names.len();
        if n == 0 || dir.names.len() != n - 1 {
            proof {
                if is_child(self@, dir@) {
                    assert(self@.drop_last().len() == dir@.len());
                }
            }
            return false;
        }
        proof {
            assert(self@.take(n - 1) =~= self@.drop_last());
            assert(dir@.take(n - 1) =~= dir@);
        }
        self.shares(dir, n - 1)
    }

    /// Whether the path is the other one or stands below it.
    pub fn is_within(&self, top: &PathBuf) -> (r: bool)
        ensures
            r == crate::fs::model::is_within(self@, top@),
    {
        let n: usize = top.names.len();
        if n > self.names.len() {
            return false;
        }
        proof {
            assert(top@.take(n as int) =~= top@);
        }
        self.shares(top, n)
    }

    /// The path that leads from `to` where this one leads from `from`.
    pub fn moved(&self, from: &PathBuf, to: &PathBuf) -> (r: PathBuf)
        requires
            from@.len() <= self@.len(),
        ensures
            r@ == to@ + self@.skip(from@.len() as int),
    {
        let mut r = to.clone();
        let mut i: usize = from.names.len();
        proof {
            assert(r@ =~= to@ + self@.subrange(from@.len() as int, from@.len() as int));
        }
        while i < self.names.len()
            invariant
                from@.len() <= i <= self@.len(),
                self@.len() == self.names@.len(),
                r@ == to@ + self@.subrange(from@.len() as int, i as int),
            decreases self.names.len() - i,
        {
            r.push_name(bytes_copy(&self.names[i]));
            i += 1;
            proof {
                assert(r@ =~= to@ + self@.subrange(from@.len() as int, i as int));
            }
        }
        proof {
            assert(self@.subrange(from@.len() as int, i as int) =~= self@.skip(
                from@.len() as int,
            ));
        }
        r
    }

    /// The text of the path.
    pub fn to_bytes(&self) -> (r: Vec<u8>)
        ensures
            r@ == render(self@),
    {
        let mut r: Vec<u8> = Vec::new();
        r.push(SLASH);
        let mut i: usize = 0;
        proof {
            assert(self@.take(0) =~= PathView::empty());
            assert(r@ =~= seq![SLASH]);
        }
        while i < self.names.len()
            invariant
                i <= self.names.len(),
                self@.len() == self.names.len(),
                r@ == render(self@.take(i as int)),
            decreases self.names.len() - i,
        {
            if i > 0 {
                r.push(SLASH);
            }
            let ghost head = r@;
            r.extend_from_slice(self.names[i].as_slice());
            proof {
                assert(r@ =~= head + self@[i as int]);
                let t = self@.take(i + 1);
                assert(t.drop_last() =~= self@.take(i as int));
                assert(t.last() == self@[i as int]);
                if i > 0 {
                    assert(head =~= render(self@.take(i as int)) + seq![SLASH]);
                } else {
                    assert(t[0] == self@[0]);
                }
            }
            i += 1;
        }
        proof {
            assert(self@.take(i as int) =~= self@);
        }
        r
    }
}

/// Whether the bytes can be a name: there are some, none of them is a slash, and they are
/// not a single dot.
pub open spec fn is_name(name: Seq<u8>) -> bool {
    !is_idle(name) && forall|i: int| 0 <= i < name.len() ==> name[i] != SLASH
}

/// Whether all parts of the path are names.
pub open spec fn all_names(path: PathView) -> bool {
    forall|i: int| 0 <= i < path.len() ==> is_name(#[trigger] path[i])
}

proof fn lemma_same_slash(a: Seq<u8>, raw: Seq<u8>, from: int)
    requires
        0 <= from <= a.len(),
        a.len() < raw.len(),
        raw.take(a.len() as int) == a,
        raw[a.len() as int] == SLASH,
    ensures
        next_slash(raw, from) == next_slash(a, from),
    decreases a.len() - from,
{
    if from < a.len() {
        assert(raw.take(a.len() as int)[from] == raw[from]);
        if a[from] != SLASH {
            lemma_same_slash(a, raw, from + 1);
        }
    }
}

proof fn lemma_no_slash(raw: Seq<u8>, from: int)
    requires
        0 <= from <= raw.len(),
        forall|i: int| from <= i < raw.len() ==> raw[i] != SLASH,
    ensures
        next_slash(raw, from) == raw.len(),
    decreases raw.len() - from,
{
    if from < raw.len() {
        lemma_no_slash(raw, from + 1);
    }
}

proof fn lemma_one_more_name(a: Seq<u8>, name: Seq<u8>, from: int)
    requires
        0 <= from <= a.len(),
        is_name(name),
    ensures
        names_from(a + seq![SLASH] + name, from) == names_from(a, from) + seq![name],
    decreases a.len() - from,
{
    let raw = a + seq![SLASH] + name;
    let n = a.len() as int;
    assert(raw.take(n) =~= a);
    assert(raw[n] == SLASH);
    lemma_same_slash(a, raw, from);
    lemma_next_slash(a, from);
    lemma_next_slash(raw, from);
    if from == n {
        lemma_no_slash(raw, n + 1);
        assert(raw.subrange(n + 1, raw.len() as int) =~= name);
        assert(names_from(raw, raw.len() as int) =~= seq![]);
        assert(names_from(raw, n + 1) =~= seq![name]);
        assert(names_from(a, from) + seq![name] =~= seq![name]);
    } else {
        let end = next_slash(a, from);
        assert(raw.subrange(from, end) =~= a.subrange(from, end));
        if end <= from {
            lemma_one_more_name(a, name, from + 1);
        } else {
            lemma_one_more_name(a, name, end);
            let piece = a.subrange(from, end);
            if !is_idle(piece) {
                assert(seq![piece] + (names_from(a, end) + seq![name]) =~= (seq![piece]
                    + names_from(a, end)) + seq![name]);
            }
        }
    }
}

proof fn lemma_names_are_names(raw: Seq<u8>, from: int)
    ensures
        all_names(names_from(raw, from)),
    decreases raw.len() - from,
{
    if 0 <= from < raw.len() {
        lemma_next_slash(raw, from);
        let end = next_slash(raw, from);
        if end <= from {
            lemma_names_are_names(raw, from + 1);
        } else {
            lemma_names_are_names(raw, end);
            let piece = raw.subrange(from, end);
            if !is_idle(piece) {
                assert forall|i: int| 0 <= i < piece.len() implies piece[i] != SLASH by {
                    assert(piece[i] == raw[from + i]);
                }
                let rest = names_from(raw, end);
                let all = names_from(raw, from);
                assert(all == seq![piece] + rest);
                assert forall|i: int| 0 <= i < all.len() implies is_name(#[trigger] all[i]) by {
                    if i > 0 {
                        assert(all[i] == rest[i - 1]);
                    }
                }
            }
        }
    }
}

/// The text of a path reads as that path.
pub proof fn law_text_reads_back(path: PathView)
    requires
        all_names(path),
    ensures
        is_absolute(render(path)),
        parse(render(path)) == path,
    decreases path.len(),
{
    if path.len() == 0 {
        let raw = seq![SLASH];
        assert(next_slash(raw, 0) == 0);
        assert(names_from(raw, 1) =~= seq![]);
        assert(parse(raw) =~= path);
    } else {
        let init = path.drop_last();
        assert(is_name(path[path.len() - 1]));
        assert forall|i: int| 0 <= i < init.len() implies is_name(#[trigger] init[i]) by {
            assert(init[i] == path[i]);
        }
        if path.len() == 1 {
            let none: Seq<u8> = seq![];
            lemma_one_more_name(none, path[0], 0);
            assert(none + seq![SLASH] + path[0] =~= seq![SLASH] + path[0]);
            assert(names_from(none, 0) + seq![path[0]] =~= path);
        } else {
            law_text_reads_back(init);
            lemma_one_more_name(render(init), path.last(), 0);
            assert(init + seq![path.last()] =~= path);
        }
    }
}

/// Whatever a text is read as, the text of that is read the same.
pub proof fn law_parse_is_stable(raw: Seq<u8>)
    ensures
        all_names(parse(raw)),
        parse(render(parse(raw))) == parse(raw),
{
    lemma_names_are_names(raw, 0);
    law_text_reads_back(parse(raw));
}

} // verus!
