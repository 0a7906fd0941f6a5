//! Keyed collections that remember the order of insertion.
//!
//! Each type holds a collection of the `indexmap` crate and says as its view what is in
//! it. The functions that call into that crate are declared here, each with what it
//! does to the view.
use crate::path::{PathBuf, PathView};
use indexmap::{IndexMap, IndexSet};
use vstd::prelude::*;

verus! {

/// Declares `indexmap::IndexMap`.
#[verifier::external_type_specification]
#[verifier::external_body]
#[verifier::reject_recursive_types(K)]
#[verifier::reject_recursive_types(V)]
#[verifier::reject_recursive_types(S)]
pub struct ExIndexMap<K, V, S>(IndexMap<K, V, S>);

/// Declares `indexmap::IndexSet`.
#[verifier::external_type_specification]
#[verifier::external_body]
#[verifier::reject_recursive_types(T)]
#[verifier::reject_recursive_types(S)]
pub struct ExIndexSet<T, S>(IndexSet<T, S>);

/// A map keyed by paths. Its view gives each key the view of its value.
#[verifier::reject_recursive_types(V)]
pub struct PathMap<V: View> {
    map: IndexMap<Vec<Vec<u8>>, V>,
    contents: Ghost<Map<PathView, V::V>>,
}

impl<V: View> View for PathMap<V> {
    type V = Map<PathView, V::V>;

    closed spec fn view(&self) -> Map<PathView, V::V> {
        self.contents@
    }
}

impl<V: View> PathMap<V> {
    /// `IndexMap::new`: the map has no entry.
    #[verifier::external_body]
    pub(crate) fn new() -> (r: Self)
        ensures
            r@ =~= Map::empty(),
    {
        PathMap { map: IndexMap::new(), contents: Ghost(Map::empty()) }
    }

    /// `IndexMap::insert`: the key now has the value, and the value that it had before
    /// is returned.
    #[verifier::external_body]
    pub(crate) fn insert(&mut self, key: PathBuf, value: V) -> (r: Option<V>)
        ensures
            final(self)@ == old(self)@.insert(key@, value@),
            match r {
                Some(v) => old(self)@.contains_key(key@) && v@ == old(self)@[key@],
                None => !old(self)@.contains_key(key@),
            },
    {
        self.map.insert(key.names, value)
    }

    /// `IndexMap::get`: the value of the key, if it has one.
    #[verifier::external_body]
    pub(crate) fn get(&self, key: &PathBuf) -> (r: Option<&V>)
        ensures
            match r {
                Some(v) => self@.contains_key(key@) && v@ == self@[key@],
                None => !self@.contains_key(key@),
            },
    {
        self.map.get(&key.names)
    }

    /// `IndexMap::contains_key`: whether the key has a value.
    #[verifier::external_body]
    pub(crate) fn contains_key(&self, key: &PathBuf) -> (r: bool)
        ensures
            r == self@.contains_key(key@),
    {
        self.map.contains_key(&key.names)
    }

    /// `IndexMap::swap_remove`: the key has no value any more, and the value that it had
    /// is returned. The order of the entries, which the view does not show, may change.
    #[verifier::external_body]
    pub(crate) fn swap_remove(&mut self, key: &PathBuf) -> (r: Option<V>)
        ensures
            final(self)@ == old(self)@.remove(key@),
            match r {
                Some(v) => old(self)@.contains_key(key@) && v@ == old(self)@[key@],
                None => !old(self)@.contains_key(key@),
            },
    {
        self.map.swap_remove(&key.names)
    }

    /// `IndexMap::keys`: each key that has a value, once.
    #[verifier::external_body]
    pub(crate) fn keys(&self) -> (r: Vec<PathBuf>)
        ensures
            forall|k: PathView| #[trigger] self@.contains_key(k) <==> lists(r@, k),
            forall|i: int, j: int| 0 <= i < j < r@.len() ==> #[trigger] r@[i]@ != #[trigger] r@[j]@,
    {
        self.map.keys().map(|k| PathBuf { names: k.clone() }).collect()
    }
}

/// Whether the path is one of those listed.
pub open spec fn lists(paths: Seq<PathBuf>, path: PathView) -> bool {
    exists|i: int| 0 <= i < paths.len() && #[trigger] paths[i]@ == path
}

/// A map keyed by numbers. Its view gives each key the view of its value.
#[verifier::reject_recursive_types(V)]
pub struct NumMap<V: View> {
    map: IndexMap<u64, V>,
    contents: Ghost<Map<u64, V::V>>,
}

impl<V: View> View for NumMap<V> {
    type V = Map<u64, V::V>;

    closed spec fn view(&self) -> Map<u64, V::V> {
        self.contents@
    }
}

impl<V: View> NumMap<V> {
    /// `IndexMap::new`: the map has no entry.
    #[verifier::external_body]
    pub(crate) fn new() -> (r: Self)
        ensures
            r@ =~= Map::empty(),
    {
        NumMap { map: IndexMap::new(), contents: Ghost(Map::empty()) }
    }

    /// `IndexMap::insert`: the key now has the value, and the value that it had before
    /// is returned.
    #[verifier::external_body]
    pub(crate) fn insert(&mut self, key: u64, value: V) -> (r: Option<V>)
        ensures
            final(self)@ == old(self)@.insert(key, value@),
            match r {
                Some(v) => old(self)@.contains_key(key) && v@ == old(self)@[key],
                None => !old(self)@.contains_key(key),
            },
    {
        self.map.insert(key, value)
    }

    /// `IndexMap::get`: the value of the key, if it has one.
    #[verifier::external_body]
    pub(crate) fn get(&self, key: u64) -> (r: Option<&V>)
        ensures
            match r {
                Some(v) => self@.contains_key(key) && v@ == self@[key],
                None => !self@.contains_key(key),
            },
    {
        self.map.get(&key)
    }

    /// `IndexMap::swap_remove`: the key has no value any more, and the value that it had
    /// is returned. The order of the entries, which the view does not show, may change.
    #[verifier::external_body]
    pub(crate) fn swap_remove(&mut self, key: u64) -> (r: Option<V>)
        ensures
            final(self)@ == old(self)@.remove(key),
            match r {
                Some(v) => old(self)@.contains_key(key) && v@ == old(self)@[key],
                None => !old(self)@.contains_key(key),
            },
    {
        self.map.swap_remove(&key)
    }
}

/// A page of a file: the path of the file and the number of the page.
pub type PageView = (PathView, u64);

/// A set of pages in an order. Its view lists each page once, in that order.
pub struct PageSet {
    set: IndexSet<(Vec<Vec<u8>>, u64)>,
    contents: Ghost<Seq<PageView>>,
}

impl View for PageSet {
    type V = Seq<PageView>;

    closed spec fn view(&self) -> Seq<PageView> {
        self.contents@
    }
}

impl PageSet {
    /// `IndexSet::new`: the set is empty.
    #[verifier::external_body]
    pub(crate) fn new() -> (r: Self)
        ensures
            r@ =~= Seq::empty(),
    {
        PageSet { set: IndexSet::new(), contents: Ghost(Seq::empty()) }
    }

    /// `IndexSet::len`: the number of pages.
    #[verifier::external_body]
    pub(crate) fn len(&self) -> (r: usize)
        ensures
            r == self@.len(),
    {
        self.set.len()
    }

    /// `IndexSet::insert`: a page that is in the set keeps its place; another one goes to
    /// the end. Returns whether the page was not in the set before.
    #[verifier::external_body]
    pub(crate) fn insert(&mut self, path: PathBuf, page: u64) -> (r: bool)
        ensures
            r == !old(self)@.contains((path@, page)),
            final(self)@ == (if r { old(self)@.push((path@, page)) } else { old(self)@ }),
    {
        self.set.insert((path.names, page))
    }

    /// `IndexSet::shift_remove`: the page is not in the set any more, and the others keep
    /// their order. Returns whether the page was in the set.
    #[verifier::external_body]
    pub(crate) fn shift_remove(&mut self, path: PathBuf, page: u64) -> (r: bool)
        ensures
            r == old(self)@.contains((path@, page)),
            final(self)@ == old(self)@.remove_value((path@, page)),
    {
        self.set.shift_remove(&(path.names, page))
    }

    /// `IndexSet::shift_remove_index`: the page at the index is not in the set any more,
    /// and the others keep their order.
    #[verifier::external_body]
    pub(crate) fn shift_remove_index(&mut self, index: usize)
        requires
            index < old(self)@.len(),
        ensures
            final(self)@ == old(self)@.remove(index as int),
    {
        let _ = self.set.shift_remove_index(index);
    }

    /// `IndexSet::get_index`: the path of the page at the index.
    #[verifier::external_body]
    pub(crate) fn path_at(&self, index: usize) -> (r: Option<PathBuf>)
        ensures
            match r {
                Some(p) => index < self@.len() && p@ == self@[index as int].0,
                None => index >= self@.len(),
            },
    {
        self.set.get_index(index).map(|key| PathBuf { names: key.0.clone() })
    }
}

} // verus!
