//! Maps and sets that keep the order in which their keys came.
//!
//! Each type holds a collection of the `indexmap` crate and says as its view what is in
//! it and in which order. The functions that call into that crate are declared here,
//! each with what it does to the view.
use crate::addr::Key;
use indexmap::{IndexMap, IndexSet};
use vstd::prelude::*;

verus! {

/// The entries of a map: its keys in order, and the value of each.
#[verifier::ext_equal]
#[verifier::reject_recursive_types(K)]
#[verifier::reject_recursive_types(V)]
pub struct Entries<K, V> {
    /// The keys in order.
    pub order: Seq<K>,
    /// The value of each key.
    pub map: Map<K, V>,
}

impl<K, V> Entries<K, V> {
    /// No entry.
    pub open spec fn none() -> Entries<K, V> {
        Entries { order: Seq::empty(), map: Map::empty() }
    }

    /// Whether each key that has a value is listed once, and no other is.
    pub open spec fn wf(self) -> bool {
        &&& self.order.no_duplicates()
        &&& forall|k: K| #[trigger] self.map.contains_key(k) <==> self.order.contains(k)
    }

    /// Whether the key has a value.
    pub open spec fn has(self, key: K) -> bool {
        self.map.contains_key(key)
    }

    /// The value at the index.
    pub open spec fn nth(self, i: int) -> V {
        self.map[self.order[i]]
    }

    /// The entries with the value for the key. A key that had one keeps its place, another
    /// one goes to the end.
    pub open spec fn with(self, key: K, value: V) -> Entries<K, V> {
        Entries {
            order: if self.map.contains_key(key) {
                self.order
            } else {
                self.order.push(key)
            },
            map: self.map.insert(key, value),
        }
    }

    /// The entries without the key. The last one takes its place.
    pub open spec fn swapped_out(self, key: K) -> Entries<K, V> {
        if self.map.contains_key(key) {
            Entries {
                order: self.order.update(self.order.index_of(key), self.order.last()).drop_last(),
                map: self.map.remove(key),
            }
        } else {
            self
        }
    }

    /// The entries without the key. The others keep their order.
    pub open spec fn shifted_out(self, key: K) -> Entries<K, V> {
        if self.map.contains_key(key) {
            Entries {
                order: self.order.remove(self.order.index_of(key)),
                map: self.map.remove(key),
            }
        } else {
            self
        }
    }

    /// Each key that has a value has an index.
    pub proof fn lemma_index(self, key: K) -> (i: int)
        requires
            self.wf(),
            self.has(key),
        ensures
            0 <= i < self.order.len(),
            self.order[i] == key,
            i == self.order.index_of(key),
            forall|j: int| 0 <= j < self.order.len() && #[trigger] self.order[j] == key ==> j == i,
    {
        assert(self.order.contains(key));
        self.order.index_of(key)
    }

    /// The key at an index has a value.
    pub proof fn lemma_nth(self, i: int)
        requires
            self.wf(),
            0 <= i < self.order.len(),
        ensures
            self.has(self.order[i]),
    {
        assert(self.order.contains(self.order[i]));
    }

    /// Entries stay well formed with a further one.
    pub proof fn lemma_with(self, key: K, value: V)
        requires
            self.wf(),
        ensures
            self.with(key, value).wf(),
    {
        let s = self.with(key, value);
        if self.map.contains_key(key) {
            assert forall|k: K| #[trigger] s.map.contains_key(k) <==> s.order.contains(k) by {
                assert(self.map.contains_key(k) <==> self.order.contains(k));
            }
        } else {
            assert(!self.order.contains(key));
            assert forall|k: K| #[trigger] s.map.contains_key(k) <==> s.order.contains(k) by {
                assert(self.map.contains_key(k) <==> self.order.contains(k));
                if self.order.contains(k) {
                    let i = choose|i: int| 0 <= i < self.order.len() && self.order[i] == k;
                    assert(s.order[i] == k);
                }
                if k == key {
                    assert(s.order[self.order.len() as int] == k);
                }
            }
            assert forall|i: int, j: int|
                0 <= i < s.order.len() && 0 <= j < s.order.len() && i != j implies s.order[i]
                != s.order[j] by {
                if i == self.order.len() {
                    assert(self.order.contains(self.order[j]));
                }
                if j == self.order.len() {
                    assert(self.order.contains(self.order[i]));
                }
            }
        }
    }

    /// Entries stay well formed without one of them.
    pub proof fn lemma_swapped_out(self, key: K)
        requires
            self.wf(),
        ensures
            self.swapped_out(key).wf(),
    {
        if self.has(key) {
            let s = self.swapped_out(key);
            let i = self.lemma_index(key);
            let n = self.order.len() - 1;
            assert forall|k: K| #[trigger] s.map.contains_key(k) <==> s.order.contains(k) by {
                assert(self.map.contains_key(k) <==> self.order.contains(k));
                if s.map.contains_key(k) {
                    let j = self.lemma_index(k);
                    if j == n {
                        assert(s.order[i] == k);
                    } else {
                        assert(s.order[j] == k);
                    }
                }
                if s.order.contains(k) {
                    let j = choose|j: int| 0 <= j < s.order.len() && s.order[j] == k;
                    if j == i {
                        assert(self.order[n] == k);
                    } else {
                        assert(self.order[j] == k);
                    }
                }
            }
        }
    }

    /// Entries stay well formed without one of them.
    pub proof fn lemma_shifted_out(self, key: K)
        requires
            self.wf(),
        ensures
            self.shifted_out(key).wf(),
    {
        if self.has(key) {
            let s = self.shifted_out(key);
            let i = self.lemma_index(key);
            assert forall|k: K| #[trigger] s.map.contains_key(k) <==> s.order.contains(k) by {
                assert(self.map.contains_key(k) <==> self.order.contains(k));
                if s.map.contains_key(k) {
                    let j = self.lemma_index(k);
                    if j < i {
                        assert(s.order[j] == k);
                    } else {
                        assert(s.order[j - 1] == k);
                    }
                }
                if s.order.contains(k) {
                    let j = choose|j: int| 0 <= j < s.order.len() && s.order[j] == k;
                    if j < i {
                        assert(self.order[j] == k);
                    } else {
                        assert(self.order[j + 1] == k);
                    }
                }
            }
        }
    }
}

/// Whether different values have different keys.
pub open spec fn is_faithful<A>(key: spec_fn(A) -> Key) -> bool {
    forall|a: A, b: A| #[trigger] key(a) == #[trigger] key(b) ==> a == b
}

/// The entries as a map from what the keys stand for.
pub open spec fn rekeyed<A, V>(e: Entries<Key, V>, key: spec_fn(A) -> Key) -> Map<A, V> {
    Map::new(|a: A| e.has(key(a)), |a: A| e.map[key(a)])
}

/// A further entry is a further entry of the map from what the keys stand for.
pub proof fn lemma_rekeyed_with<A, V>(e: Entries<Key, V>, key: spec_fn(A) -> Key, a: A, v: V)
    requires
        is_faithful(key),
    ensures
        rekeyed(e.with(key(a), v), key) == rekeyed(e, key).insert(a, v),
{
    assert(rekeyed(e.with(key(a), v), key) =~= rekeyed(e, key).insert(a, v));
}

/// An entry that leaves leaves the map from what the keys stand for.
pub proof fn lemma_rekeyed_without<A, V>(e: Entries<Key, V>, key: spec_fn(A) -> Key, a: A)
    requires
        is_faithful(key),
    ensures
        rekeyed(e.swapped_out(key(a)), key) == rekeyed(e, key).remove(a),
        rekeyed(e.shifted_out(key(a)), key) == rekeyed(e, key).remove(a),
{
    assert(rekeyed(e.swapped_out(key(a)), key) =~= rekeyed(e, key).remove(a));
    assert(rekeyed(e.shifted_out(key(a)), key) =~= rekeyed(e, key).remove(a));
}

/// The key of a number.
pub open spec fn spec_number_key(n: u64) -> Key {
    (n as u128, 0, 0)
}

/// The key of a number.
#[verifier::when_used_as_spec(spec_number_key)]
pub fn number_key(n: u64) -> (r: Key)
    ensures
        r == spec_number_key(n),
{
    (n as u128, 0, 0)
}

/// A map keyed by addresses and numbers.
#[verifier::reject_recursive_types(V)]
pub struct KeyMap<V> {
    map: IndexMap<Key, V>,
    contents: Ghost<Entries<Key, V>>,
}

impl<V> View for KeyMap<V> {
    type V = Entries<Key, V>;

    closed spec fn view(&self) -> Entries<Key, V> {
        self.contents@
    }
}

impl<V> KeyMap<V> {
    /// `IndexMap::new`: the map has no entry.
    #[verifier::external_body]
    pub(crate) fn new() -> (r: Self)
        ensures
            r@ =~= Entries::none(),
    {
        KeyMap { map: IndexMap::new(), contents: Ghost(Entries::none()) }
    }

    /// `IndexMap::len`: the number of entries.
    #[verifier::external_body]
    pub(crate) fn len(&self) -> (r: usize)
        ensures
            r == self@.order.len(),
    {
        self.map.len()
    }

    /// `IndexMap::insert`: the key now has the value, and the value that it had before
    /// is returned. A new key goes to the end, another one keeps its place.
    #[verifier::external_body]
    pub(crate) fn insert(&mut self, key: Key, value: V) -> (r: Option<V>)
        ensures
            final(self)@ == old(self)@.with(key, value),
            match r {
                Some(v) => old(self)@.has(key) && v == old(self)@.map[key],
                None => !old(self)@.has(key),
            },
    {
        self.map.insert(key, value)
    }

    /// `IndexMap::get`: the value of the key, if it has one.
    #[verifier::external_body]
    pub(crate) fn get(&self, key: Key) -> (r: Option<&V>)
        ensures
            match r {
                Some(v) => self@.has(key) && *v == self@.map[key],
                None => !self@.has(key),
            },
    {
        self.map.get(&key)
    }

    /// `IndexMap::get_mut`: the value of the key, if it has one, to be changed in place.
    #[verifier::external_body]
    pub(crate) fn get_mut(&mut self, key: Key) -> (r: Option<&mut V>)
        ensures
            match r {
                Some(v) => old(self)@.has(key) && *v == old(self)@.map[key] && final(self)@ == old(
                    self,
                )@.with(key, *final(v)),
                None => !old(self)@.has(key) && final(self)@ == old(self)@,
            },
    {
        self.map.get_mut(&key)
    }

    /// `IndexMap::get_index`: the key and the value at the index.
    #[verifier::external_body]
    pub(crate) fn get_index(&self, index: usize) -> (r: Option<(Key, &V)>)
        ensures
            match r {
                Some(e) => index < self@.order.len() && e.0 == self@.order[index as int] && *e.1
                    == self@.nth(index as int),
                None => index >= self@.order.len(),
            },
    {
        self.map.get_index(index).map(|e| (*e.0, e.1))
    }

    /// `IndexMap::swap_remove`: the key has no value any more, and the value that it had
    /// is returned. The last entry takes the place of the one that left.
    #[verifier::external_body]
    pub(crate) fn swap_remove(&mut self, key: Key) -> (r: Option<V>)
        ensures
            final(self)@ == old(self)@.swapped_out(key),
            match r {
                Some(v) => old(self)@.has(key) && v == old(self)@.map[key],
                None => !old(self)@.has(key),
            },
    {
        self.map.swap_remove(&key)
    }

    /// `IndexMap::shift_remove`: the key has no value any more, and the value that it had
    /// is returned. The other entries keep their order.
    #[verifier::external_body]
    pub(crate) fn shift_remove(&mut self, key: Key) -> (r: Option<V>)
        ensures
            final(self)@ == old(self)@.shifted_out(key),
            match r {
                Some(v) => old(self)@.has(key) && v == old(self)@.map[key],
                None => !old(self)@.has(key),
            },
    {
        self.map.shift_remove(&key)
    }
}

/// A map keyed by names.
#[verifier::reject_recursive_types(V)]
pub struct NameMap<V> {
    map: IndexMap<Vec<u8>, V>,
    contents: Ghost<Entries<Seq<u8>, V>>,
}

impl<V> View for NameMap<V> {
    type V = Entries<Seq<u8>, V>;

    closed spec fn view(&self) -> Entries<Seq<u8>, V> {
        self.contents@
    }
}

impl<V> NameMap<V> {
    /// `IndexMap::new`: the map has no entry.
    #[verifier::external_body]
    pub(crate) fn new() -> (r: Self)
        ensures
            r@ =~= Entries::none(),
    {
        NameMap { map: IndexMap::new(), contents: Ghost(Entries::none()) }
    }

    /// `IndexMap::len`: the number of entries.
    #[verifier::external_body]
    pub(crate) fn len(&self) -> (r: usize)
        ensures
            r == self@.order.len(),
    {
        self.map.len()
    }

    /// `IndexMap::insert`: the name now has the value, and the value that it had before
    /// is returned. A new name goes to the end, another one keeps its place.
    #[verifier::external_body]
    pub(crate) fn insert(&mut self, name: Vec<u8>, value: V) -> (r: Option<V>)
        ensures
            final(self)@ == old(self)@.with(name@, value),
            match r {
                Some(v) => old(self)@.has(name@) && v == old(self)@.map[name@],
                None => !old(self)@.has(name@),
            },
    {
        self.map.insert(name, value)
    }

    /// `IndexMap::get`: the value of the name, if it has one.
    #[verifier::external_body]
    pub(crate) fn get(&self, name: &[u8]) -> (r: Option<&V>)
        ensures
            match r {
                Some(v) => self@.has(name@) && *v == self@.map[name@],
                None => !self@.has(name@),
            },
    {
        self.map.get(name)
    }

    /// `IndexMap::get_index`: the name and the value at the index.
    #[verifier::external_body]
    pub(crate) fn get_index(&self, index: usize) -> (r: Option<(&Vec<u8>, &V)>)
        ensures
            match r {
                Some(e) => index < self@.order.len() && e.0@ == self@.order[index as int] && *e.1
                    == self@.nth(index as int),
                None => index >= self@.order.len(),
            },
    {
        self.map.get_index(index)
    }
}

/// A set of addresses and numbers in an order. Its view lists each once, in that order.
pub struct KeySet {
    set: IndexSet<Key>,
    contents: Ghost<Seq<Key>>,
}

impl View for KeySet {
    type V = Seq<Key>;

    closed spec fn view(&self) -> Seq<Key> {
        self.contents@
    }
}

/// The list without the element. The last one takes its place.
pub open spec fn swapped_out<T>(s: Seq<T>, x: T) -> Seq<T> {
    if s.contains(x) {
        s.update(s.index_of(x), s.last()).drop_last()
    } else {
        s
    }
}

impl KeySet {
    /// `IndexSet::new`: the set is empty.
    #[verifier::external_body]
    pub(crate) fn new() -> (r: Self)
        ensures
            r@ =~= Seq::empty(),
    {
        KeySet { set: IndexSet::new(), contents: Ghost(Seq::empty()) }
    }

    /// `IndexSet::len`: the number of elements.
    #[verifier::external_body]
    pub(crate) fn len(&self) -> (r: usize)
        ensures
            r == self@.len(),
    {
        self.set.len()
    }

    /// `IndexSet::insert`: an element that is in the set keeps its place; another one goes
    /// to the end. Returns whether it was not in the set before.
    #[verifier::external_body]
    pub(crate) fn insert(&mut self, key: Key) -> (r: bool)
        ensures
            r == !old(self)@.contains(key),
            final(self)@ == (if r { old(self)@.push(key) } else { old(self)@ }),
    {
        self.set.insert(key)
    }

    /// `IndexSet::contains`: whether the element is in the set.
    #[verifier::external_body]
    pub(crate) fn contains(&self, key: Key) -> (r: bool)
        ensures
            r == self@.contains(key),
    {
        self.set.contains(&key)
    }

    /// `IndexSet::swap_remove`: the element is not in the set any more; returns whether it
    /// was. The last element takes its place.
    #[verifier::external_body]
    pub(crate) fn swap_remove(&mut self, key: Key) -> (r: bool)
        ensures
            r == old(self)@.contains(key),
            final(self)@ == swapped_out(old(self)@, key),
    {
        self.set.swap_remove(&key)
    }

    /// `IndexSet::get_index`: the element at the index.
    #[verifier::external_body]
    pub(crate) fn get_index(&self, index: usize) -> (r: Option<Key>)
        ensures
            match r {
                Some(k) => index < self@.len() && k == self@[index as int],
                None => index >= self@.len(),
            },
    {
        self.set.get_index(index).copied()
    }
}

} // verus!
