//! Groups of sockets that receive what is sent to one address.
use crate::addr;
use crate::addr::{IpAddr, Ipv4Addr, Ipv6Addr, Key, SocketAddr};
use crate::ordered;
use crate::ordered::{Entries, KeyMap, KeySet};
use vstd::prelude::*;

verus! {

/// The socket address that has the key.
pub open spec fn socket_of(k: Key) -> SocketAddr {
    SocketAddr {
        ip: if k.2 == 4 {
            IpAddr::V4(Ipv4Addr { bits: k.0 as u32 })
        } else {
            IpAddr::V6(Ipv6Addr { bits: k.0 })
        },
        port: k.1 as u16,
    }
}

fn decode(k: Key) -> (r: SocketAddr)
    requires
        socket_of(k).key() == k,
    ensures
        r == socket_of(k),
{
    let ip = if k.2 == 4 {
        IpAddr::V4(Ipv4Addr { bits: k.0 as u32 })
    } else {
        IpAddr::V6(Ipv6Addr { bits: k.0 })
    };
    SocketAddr { ip, port: k.1 as u16 }
}

/// The groups, and the sockets in each.
pub struct MulticastGroups {
    groups: KeyMap<KeySet>,
}

/// The key of a socket address.
pub open spec fn socket_key() -> spec_fn(SocketAddr) -> Key {
    |a: SocketAddr| a.key()
}

spec fn shown_members(s: Seq<Key>) -> Seq<SocketAddr> {
    s.map_values(|k: Key| socket_of(k))
}

spec fn members_wf(s: Seq<Key>) -> bool {
    &&& s.no_duplicates()
    &&& forall|i: int| 0 <= i < s.len() ==> socket_of(#[trigger] s[i]).key() == s[i]
}

spec fn shown(e: Entries<Key, KeySet>) -> Map<SocketAddr, Seq<SocketAddr>> {
    ordered::rekeyed(e, socket_key()).map_values(|s: KeySet| shown_members(s@))
}

proof fn lemma_keys()
    ensures
        ordered::is_faithful(socket_key()),
        forall|a: SocketAddr| socket_of(#[trigger] a.key()) == a,
{
    assert forall|a: SocketAddr, b: SocketAddr|
        #[trigger] socket_key()(a) == #[trigger] socket_key()(b) implies a == b by {
        addr::lemma_socket_keys(a, b);
    }
}

proof fn lemma_shown_with(e: Entries<Key, KeySet>, g: SocketAddr, s: KeySet)
    ensures
        shown(e.with(g.key(), s)) == shown(e).insert(g, shown_members(s@)),
{
    lemma_keys();
    ordered::lemma_rekeyed_with(e, socket_key(), g, s);
    assert(socket_key()(g) == g.key());
    assert(shown(e.with(g.key(), s)) =~= shown(e).insert(g, shown_members(s@)));
}

proof fn lemma_shown_without(e: Entries<Key, KeySet>, g: SocketAddr)
    ensures
        shown(e.swapped_out(g.key())) == shown(e).remove(g),
{
    lemma_keys();
    ordered::lemma_rekeyed_without(e, socket_key(), g);
    assert(socket_key()(g) == g.key());
    assert(shown(e.swapped_out(g.key())) =~= shown(e).remove(g));
}

proof fn lemma_contains(s: Seq<Key>, a: SocketAddr)
    requires
        members_wf(s),
    ensures
        shown_members(s).contains(a) <==> s.contains(a.key()),
        shown_members(s).no_duplicates(),
{
    lemma_keys();
    if s.contains(a.key()) {
        let i = choose|i: int| 0 <= i < s.len() && s[i] == a.key();
        assert(shown_members(s)[i] == a);
    }
    if shown_members(s).contains(a) {
        let i = choose|i: int| 0 <= i < s.len() && shown_members(s)[i] == a;
        assert(s[i] == a.key());
    }
}

proof fn lemma_pushed(s: Seq<Key>, a: SocketAddr)
    requires
        members_wf(s),
        !s.contains(a.key()),
    ensures
        members_wf(s.push(a.key())),
        shown_members(s.push(a.key())) == shown_members(s).push(a),
{
    lemma_keys();
    let t = s.push(a.key());
    assert forall|i: int, j: int| 0 <= i < t.len() && 0 <= j < t.len() && i != j implies t[i] != t[j]
    by {
        if i == s.len() {
            assert(s.contains(s[j]));
        }
        if j == s.len() {
            assert(s.contains(s[i]));
        }
    }
    assert(shown_members(t) =~= shown_members(s).push(a));
}

proof fn lemma_swapped(s: Seq<Key>, a: SocketAddr)
    requires
        members_wf(s),
    ensures
        members_wf(ordered::swapped_out(s, a.key())),
        shown_members(ordered::swapped_out(s, a.key())) == ordered::swapped_out(
            shown_members(s),
            a,
        ),
{
    lemma_keys();
    lemma_contains(s, a);
    if s.contains(a.key()) {
        let i = s.index_of(a.key());
        assert(s[i] == a.key());
        let j = shown_members(s).index_of(a);
        assert(shown_members(s)[j] == a);
        assert(s[j] == a.key());
        assert(i == j);
        assert(shown_members(ordered::swapped_out(s, a.key())) =~= ordered::swapped_out(
            shown_members(s),
            a,
        ));
    }
}

impl View for MulticastGroups {
    type V = Map<SocketAddr, Seq<SocketAddr>>;

    closed spec fn view(&self) -> Map<SocketAddr, Seq<SocketAddr>> {
        shown(self.groups@)
    }
}

/// The group at the address, on the port of the member.
pub open spec fn group_of(group: IpAddr, member: SocketAddr) -> SocketAddr {
    SocketAddr { ip: group, port: member.port }
}

/// The groups once the socket has joined one.
pub open spec fn joined(
    groups: Map<SocketAddr, Seq<SocketAddr>>,
    g: SocketAddr,
    member: SocketAddr,
) -> Map<SocketAddr, Seq<SocketAddr>> {
    if !groups.contains_key(g) {
        groups.insert(g, seq![member])
    } else if groups[g].contains(member) {
        groups
    } else {
        groups.insert(g, groups[g].push(member))
    }
}

/// The groups once the socket has left one. A group without sockets is no more.
pub open spec fn left(
    groups: Map<SocketAddr, Seq<SocketAddr>>,
    g: SocketAddr,
    member: SocketAddr,
) -> Map<SocketAddr, Seq<SocketAddr>> {
    if !groups.contains_key(g) {
        groups
    } else {
        let rest = ordered::swapped_out(groups[g], member);
        if rest.len() == 0 {
            groups.remove(g)
        } else {
            groups.insert(g, rest)
        }
    }
}

/// The groups once the socket has left all of them. Groups without sockets are no more.
pub open spec fn left_all(groups: Map<SocketAddr, Seq<SocketAddr>>, member: SocketAddr) -> Map<
    SocketAddr,
    Seq<SocketAddr>,
> {
    Map::new(
        |g: SocketAddr|
            groups.contains_key(g) && ordered::swapped_out(groups[g], member).len() > 0,
        |g: SocketAddr| ordered::swapped_out(groups[g], member),
    )
}

spec fn groups_wf(e: Entries<Key, KeySet>) -> bool {
    &&& e.wf()
    &&& forall|k: Key| #[trigger]
        e.has(k) ==> members_wf(e.map[k]@) && e.map[k]@.len() > 0 && socket_of(k).key() == k
}

impl MulticastGroups {
    /// Whether each group has a socket, and none twice.
    pub closed spec fn wf(&self) -> bool {
        groups_wf(self.groups@)
    }

    /// No group.
    pub fn new() -> (r: MulticastGroups)
        ensures
            r.wf(),
            r@ == Map::<SocketAddr, Seq<SocketAddr>>::empty(),
    {
        let r = MulticastGroups { groups: KeyMap::new() };
        assert(r@ =~= Map::empty());
        r
    }

    /// The sockets in the group.
    pub fn destination_addresses(&self, group: SocketAddr) -> (r: Vec<SocketAddr>)
        requires
            self.wf(),
        ensures
            r@ == (if self@.contains_key(group) {
                self@[group]
            } else {
                Seq::empty()
            }),
    {
        let mut out: Vec<SocketAddr> = Vec::new();
        assert(socket_key()(group) == group.key());
        match self.groups.get(group.key()) {
            Some(set) => {
                let n: usize = set.len();
                let mut i: usize = 0;
                assert(self.groups@.has(group.key()));
                while i < n
                    invariant
                        i <= n,
                        n == set@.len(),
                        members_wf(set@),
                        out@ == shown_members(set@).take(i as int),
                    decreases n - i,
                {
                    match set.get_index(i) {
                        Some(k) => {
                            assert(k == set@[i as int]);
                            out.push(decode(k));
                        },
                        None => {},
                    }
                    i = i + 1;
                    assert(out@ =~= shown_members(set@).take(i as int));
                }
                assert(shown_members(set@).take(n as int) =~= shown_members(set@));
            },
            None => {},
        }
        out
    }

    /// Whether the socket is in the group.
    pub fn contains_destination_address(&self, group: IpAddr, member: SocketAddr) -> (r: bool)
        requires
            self.wf(),
        ensures
            r == (self@.contains_key(group_of(group, member)) && self@[group_of(
                group,
                member,
            )].contains(member)),
    {
        let g = SocketAddr::new(group, member.port);
        assert(socket_key()(g) == g.key());
        match self.groups.get(g.key()) {
            Some(set) => {
                proof {
                    assert(self.groups@.has(g.key()));
                    lemma_contains(set@, member);
                }
                set.contains(member.key())
            },
            None => false,
        }
    }

    /// Adds the socket to the group.
    pub fn join(&mut self, group: IpAddr, member: SocketAddr)
        requires
            old(self).wf(),
        ensures
            final(self).wf(),
            final(self)@ == joined(old(self)@, group_of(group, member), member),
    {
        let g = SocketAddr::new(group, member.port);
        let key = g.key();
        let ghost before = self.groups@;
        proof {
            lemma_keys();
            assert(socket_key()(g) == key);
        }
        match self.groups.get_mut(key) {
            Some(set) => {
                let ghost s = set@;
                proof {
                    assert(before.has(key));
                    lemma_contains(s, member);
                    if !s.contains(member.key()) {
                        lemma_pushed(s, member);
                    }
                }
                let _ = set.insert(member.key());
                let ghost changed = *set;
                proof {
                    before.lemma_with(key, changed);
                    lemma_shown_with(before, g, changed);
                }
            },
            None => {
                let mut set = KeySet::new();
                let _ = set.insert(member.key());
                let ghost changed = set;
                proof {
                    assert(Seq::<Key>::empty().push(member.key()) =~= changed@);
                    lemma_pushed(Seq::empty(), member);
                    assert(shown_members(changed@) =~= seq![member]);
                    before.lemma_with(key, changed);
                    lemma_shown_with(before, g, changed);
                }
                let _ = self.groups.insert(key, set);
            },
        }
        proof {
            assert forall|k: Key| #[trigger] self.groups@.has(k) implies members_wf(
                self.groups@.map[k]@,
            ) && self.groups@.map[k]@.len() > 0 && socket_of(k).key() == k by {
                if k != key {
                    assert(before.has(k));
                }
            }
            assert(self@ =~= joined(old(self)@, g, member));
        }
    }

    /// Takes the socket out of the group.
    pub fn leave(&mut self, group: IpAddr, member: SocketAddr)
        requires
            old(self).wf(),
        ensures
            final(self).wf(),
            final(self)@ == left(old(self)@, group_of(group, member), member),
    {
        let g = SocketAddr::new(group, member.port);
        let key = g.key();
        let ghost before = self.groups@;
        let mut is_empty: bool = false;
        proof {
            lemma_keys();
            assert(socket_key()(g) == key);
        }
        match self.groups.get_mut(key) {
            Some(set) => {
                let ghost s = set@;
                proof {
                    assert(before.has(key));
                    lemma_swapped(s, member);
                }
                let _ = set.swap_remove(member.key());
                is_empty = set.len() == 0;
                let ghost changed = *set;
                proof {
                    before.lemma_with(key, changed);
                    lemma_shown_with(before, g, changed);
                }
            },
            None => {},
        }
        let ghost middle = self.groups@;
        if is_empty {
            let _ = self.groups.swap_remove(key);
            proof {
                middle.lemma_swapped_out(key);
                lemma_shown_without(middle, g);
            }
        }
        proof {
            assert forall|k: Key| #[trigger] self.groups@.has(k) implies members_wf(
                self.groups@.map[k]@,
            ) && self.groups@.map[k]@.len() > 0 && socket_of(k).key() == k by {
                assert(before.has(k));
            }
            assert(self@ =~= left(old(self)@, g, member));
        }
    }

    /// Takes the socket out of every group.
    pub fn leave_all(&mut self, member: SocketAddr)
        requires
            old(self).wf(),
        ensures
            final(self).wf(),
            final(self)@ == left_all(old(self)@, member),
    {
        let ghost first = self.groups@;
        let n: usize = self.groups.len();
        let mut keys: Vec<Key> = Vec::new();
        let mut i: usize = 0;
        while i < n
            invariant
                i <= n,
                n == first.order.len(),
                self.groups@ == first,
                keys@ == first.order.take(i as int),
            decreases n - i,
        {
            match self.groups.get_index(i) {
                Some((key, _)) => {
                    keys.push(key);
                },
                None => {},
            }
            i = i + 1;
            assert(keys@ =~= first.order.take(i as int));
        }
        assert(keys@ =~= first.order);
        let mut j: usize = 0;
        while j < n
            invariant
                j <= n,
                n == first.order.len(),
                keys@ == first.order,
                groups_wf(first),
                groups_wf(self.groups@),
                forall|k: int|
                    #![trigger first.order[k]]
                    0 <= k < j ==> {
                        let rest = ordered::swapped_out(first.nth(k)@, member.key());
                        &&& self.groups@.has(first.order[k]) <==> rest.len() > 0
                        &&& self.groups@.has(first.order[k]) ==> self.groups@.map[first.order[k]]@
                            == rest
                    },
                forall|k: int|
                    #![trigger first.order[k]]
                    j <= k < n ==> self.groups@.has(first.order[k])
                        && self.groups@.map[first.order[k]] == first.nth(k),
                forall|k: Key| #[trigger] self.groups@.has(k) ==> first.has(k),
            decreases n - j,
        {
            let key = keys[j];
            let ghost before = self.groups@;
            let ghost here = first.nth(j as int);
            let mut is_empty: bool = false;
            proof {
                assert(key == first.order[j as int]);
                first.lemma_nth(j as int);
            }
            match self.groups.get_mut(key) {
                Some(set) => {
                    let ghost s = set@;
                    proof {
                        assert(socket_of(key).key() == key);
                        lemma_keys();
                        lemma_swapped(s, member);
                    }
                    let _ = set.swap_remove(member.key());
                    is_empty = set.len() == 0;
                    let ghost changed = *set;
                    proof {
                        before.lemma_with(key, changed);
                    }
                },
                None => {},
            }
            let ghost middle = self.groups@;
            if is_empty {
                let _ = self.groups.shift_remove(key);
                proof {
                    middle.lemma_shifted_out(key);
                }
            }
            proof {
                assert forall|k: Key| #[trigger] self.groups@.has(k) implies members_wf(
                    self.groups@.map[k]@,
                ) && self.groups@.map[k]@.len() > 0 && socket_of(k).key() == k by {
                    assert(before.has(k));
                }
                assert forall|k: int|
                    #![trigger first.order[k]]
                    0 <= k < n && k != j implies first.order[k] != key by {}
                assert forall|k: Key| #[trigger] self.groups@.has(k) implies first.has(k) by {
                    assert(before.has(k));
                }
            }
            j = j + 1;
        }
        proof {
            lemma_keys();
            assert forall|g: SocketAddr| #[trigger] self@.contains_key(g) <==> left_all(
                old(self)@,
                member,
            ).contains_key(g) by {
                assert(socket_key()(g) == g.key());
                if first.has(g.key()) {
                    let k = first.lemma_index(g.key());
                    lemma_swapped(first.nth(k)@, member);
                    assert(first.order[k] == g.key());
                }
            }
            assert forall|g: SocketAddr| #[trigger] self@.contains_key(g) implies self@[g]
                == left_all(old(self)@, member)[g] by {
                assert(socket_key()(g) == g.key());
                assert(first.has(g.key()));
                let k = first.lemma_index(g.key());
                lemma_swapped(first.nth(k)@, member);
                assert(first.order[k] == g.key());
            }
            assert(self@ =~= left_all(old(self)@, member));
        }
    }

    /// The number of groups.
    pub fn len(&self) -> (r: usize)
        requires
            self.wf(),
        ensures
            r == self@.dom().len(),
    {
        proof {
            let e = self.groups@;
            let groups = e.order.map_values(|k: Key| socket_of(k));
            lemma_keys();
            assert forall|i: int, j: int|
                0 <= i < groups.len() && 0 <= j < groups.len() && i != j implies groups[i]
                != groups[j] by {
                e.lemma_nth(i);
                e.lemma_nth(j);
                assert(e.order[i] != e.order[j]);
            }
            groups.unique_seq_to_set();
            assert forall|g: SocketAddr| groups.contains(g) <==> self@.contains_key(g) by {
                assert(socket_key()(g) == g.key());
                if groups.contains(g) {
                    let i = choose|i: int| 0 <= i < groups.len() && groups[i] == g;
                    e.lemma_nth(i);
                }
                if self@.contains_key(g) {
                    let i = e.lemma_index(g.key());
                    assert(groups[i] == g);
                }
            }
            assert(groups.to_set() =~= self@.dom());
        }
        self.groups.len()
    }
}

/// A socket that has joined a group is in it once, however often it joins.
pub proof fn law_joining_twice_is_joining_once(
    groups: Map<SocketAddr, Seq<SocketAddr>>,
    g: SocketAddr,
    member: SocketAddr,
)
    ensures
        joined(joined(groups, g, member), g, member) == joined(groups, g, member),
        joined(groups, g, member)[g].contains(member),
{
    let once = joined(groups, g, member);
    if !groups.contains_key(g) {
        assert(once[g][0] == member);
    } else if !groups[g].contains(member) {
        assert(once[g][groups[g].len() as int] == member);
    }
}

/// A socket that joins a group and leaves it again leaves the groups as they were.
pub proof fn law_leaving_undoes_joining(
    groups: Map<SocketAddr, Seq<SocketAddr>>,
    g: SocketAddr,
    member: SocketAddr,
)
    requires
        groups.contains_key(g) ==> groups[g].len() > 0 && !groups[g].contains(member),
    ensures
        left(joined(groups, g, member), g, member) =~= groups,
{
    let with = joined(groups, g, member);
    if groups.contains_key(g) {
        let m = groups[g].push(member);
        assert(m[groups[g].len() as int] == member);
        let i = m.index_of(member);
        assert(m.contains(member));
        assert(m[i] == member);
        if i < groups[g].len() {
            assert(groups[g].contains(groups[g][i]));
        }
        assert(ordered::swapped_out(m, member) =~= groups[g]);
    } else {
        let m = seq![member];
        assert(m[0] == member);
        assert(m.contains(member));
        assert(ordered::swapped_out(m, member) =~= Seq::empty());
    }
}

/// A socket that has left all groups is in none.
pub proof fn law_left_all_is_in_none(
    groups: Map<SocketAddr, Seq<SocketAddr>>,
    member: SocketAddr,
    g: SocketAddr,
)
    requires
        groups.contains_key(g) ==> groups[g].no_duplicates(),
    ensures
        left_all(groups, member).contains_key(g) ==> !left_all(groups, member)[g].contains(member),
{
    if left_all(groups, member).contains_key(g) && groups[g].contains(member) {
        let s = groups[g];
        let i = s.index_of(member);
        assert(s[i] == member);
        let t = ordered::swapped_out(s, member);
        if t.contains(member) {
            let j = choose|j: int| 0 <= j < t.len() && t[j] == member;
            assert(j == i || s[j] == member);
            assert(s[s.len() - 1] == member || s[j] == member);
        }
    }
}

} // verus!
