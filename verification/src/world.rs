//! The state of a simulated world.
use crate::addr;
use crate::addr::{IpAddr, Key, SocketAddr};
use crate::config::{Config, Latency};
use crate::dns::{Dns, DnsView, ToIpAddr, ToIpAddrs};
use crate::envelope::{Packet, Protocol};
use crate::error::{Cause, Error, ErrorKind};
use crate::host::{Host, HostTimer, HostView};
use crate::net::groups::MulticastGroups;
use crate::ordered;
use crate::ordered::{Entries, KeyMap};
use crate::time::Duration;
use crate::top;
use crate::top::{Fate, LinkAction, Topology, TopologyView};
use vstd::prelude::*;

verus! {

/// The hosts, the network between them and their names.
pub struct World {
    hosts: KeyMap<Host>,
    topology: Topology,
    dns: Dns,
    multicast_groups: MulticastGroups,
    current: Option<IpAddr>,
}

/// A simulated world.
#[verifier::ext_equal]
pub struct WorldView {
    /// The addresses of the hosts, in the order in which they came.
    pub order: Seq<IpAddr>,
    /// The host at each address that has one.
    pub hosts: Map<IpAddr, HostView>,
    /// The links between the hosts.
    pub topology: TopologyView,
    /// The names of the hosts.
    pub dns: DnsView,
    /// The groups of sockets.
    pub groups: Map<SocketAddr, Seq<SocketAddr>>,
    /// The host that is running.
    pub current: Option<IpAddr>,
}

spec fn shown_hosts(e: Entries<Key, Host>) -> Map<IpAddr, HostView> {
    ordered::rekeyed(e, top::ip_key()).map_values(|h: Host| h@)
}

spec fn shown_order(e: Entries<Key, Host>) -> Seq<IpAddr> {
    e.order.map_values(|k: Key| e.map[k].addr)
}

spec fn hosts_wf(e: Entries<Key, Host>) -> bool {
    &&& e.wf()
    &&& forall|k: Key| #[trigger] e.has(k) ==> e.map[k].wf() && e.map[k].addr.key() == k
}

proof fn lemma_keys()
    ensures
        ordered::is_faithful(top::ip_key()),
{
    assert forall|a: IpAddr, b: IpAddr|
        #[trigger] top::ip_key()(a) == #[trigger] top::ip_key()(b) implies a == b by {
        addr::lemma_ip_keys(a, b);
    }
}

/// Different addresses have different keys.
pub proof fn lemma_ip_keys_are_faithful()
    ensures
        ordered::is_faithful(top::ip_key()),
{
    lemma_keys();
}

proof fn lemma_host_changed(e: Entries<Key, Host>, a: IpAddr, h: Host)
    requires
        hosts_wf(e),
        e.has(a.key()),
    ensures
        shown_hosts(e.with(a.key(), h)) == shown_hosts(e).insert(a, h@),
        h.addr == a ==> shown_order(e.with(a.key(), h)) == shown_order(e),
        h.wf() && h.addr == a ==> hosts_wf(e.with(a.key(), h)),
{
    lemma_keys();
    let after = e.with(a.key(), h);
    e.lemma_with(a.key(), h);
    ordered::lemma_rekeyed_with(e, top::ip_key(), a, h);
    assert(top::ip_key()(a) == a.key());
    assert(shown_hosts(after) =~= shown_hosts(e).insert(a, h@));
    assert(top::ip_key()(e.map[a.key()].addr) == top::ip_key()(a));
    if h.addr == a {
        assert(shown_order(after) =~= shown_order(e)) by {
            assert forall|i: int| 0 <= i < e.order.len() implies #[trigger] shown_order(after)[i]
                == shown_order(e)[i] by {
                e.lemma_nth(i);
            }
        }
        if h.wf() {
            assert forall|k: Key| #[trigger] after.has(k) implies after.map[k].wf()
                && after.map[k].addr.key() == k by {
                assert(e.has(k));
            }
        }
    }
}

proof fn lemma_host_added(e: Entries<Key, Host>, a: IpAddr, h: Host)
    requires
        hosts_wf(e),
        !e.has(a.key()),
        h.wf(),
        h.addr == a,
    ensures
        hosts_wf(e.with(a.key(), h)),
        shown_hosts(e.with(a.key(), h)) == shown_hosts(e).insert(a, h@),
        shown_order(e.with(a.key(), h)) == shown_order(e).push(a),
{
    lemma_keys();
    let after = e.with(a.key(), h);
    e.lemma_with(a.key(), h);
    ordered::lemma_rekeyed_with(e, top::ip_key(), a, h);
    assert(top::ip_key()(a) == a.key());
    assert(shown_hosts(after) =~= shown_hosts(e).insert(a, h@));
    assert forall|k: Key| #[trigger] after.has(k) implies after.map[k].wf()
        && after.map[k].addr.key() == k by {
        if k != a.key() {
            assert(e.has(k));
        }
    }
    assert(shown_order(after) =~= shown_order(e).push(a)) by {
        assert forall|i: int| 0 <= i < e.order.len() implies #[trigger] shown_order(after)[i]
            == shown_order(e)[i] by {
            e.lemma_nth(i);
        }
    }
}

proof fn lemma_at(e: Entries<Key, Host>, i: int)
    requires
        hosts_wf(e),
        0 <= i < e.order.len(),
    ensures
        e.has(e.order[i]),
        shown_order(e)[i].key() == e.order[i],
        shown_hosts(e).contains_key(shown_order(e)[i]),
        shown_hosts(e)[shown_order(e)[i]] == e.nth(i)@,
{
    e.lemma_nth(i);
    assert(top::ip_key()(shown_order(e)[i]) == e.order[i]);
}

impl View for World {
    type V = WorldView;

    closed spec fn view(&self) -> WorldView {
        WorldView {
            order: shown_order(self.hosts@),
            hosts: shown_hosts(self.hosts@),
            topology: self.topology@,
            dns: self.dns@,
            groups: self.multicast_groups@,
            current: self.current,
        }
    }
}

/// The network with a link more from the new host to each of the first `n` hosts.
pub open spec fn linked_to(t: TopologyView, hosts: Seq<IpAddr>, a: IpAddr, n: int) -> TopologyView
    decreases n,
{
    if n <= 0 {
        t
    } else {
        linked_to(t, hosts, a, n - 1).registered(hosts[n - 1], a)
    }
}

/// The network after something is done to the links from one host to the first `n` of the
/// others.
pub open spec fn acted_row(
    t: TopologyView,
    action: LinkAction,
    x: IpAddr,
    b: Seq<IpAddr>,
    n: int,
) -> TopologyView
    decreases n,
{
    if n <= 0 {
        t
    } else {
        let before = acted_row(t, action, x, b, n - 1);
        if x != b[n - 1] {
            before.acted(action, x, b[n - 1])
        } else {
            before
        }
    }
}

/// The network after something is done to the links from the first `m` of some hosts to each
/// of the others.
pub open spec fn acted_all(
    t: TopologyView,
    action: LinkAction,
    a: Seq<IpAddr>,
    b: Seq<IpAddr>,
    m: int,
) -> TopologyView
    decreases m,
{
    if m <= 0 {
        t
    } else {
        acted_row(acted_all(t, action, a, b, m - 1), action, a[m - 1], b, b.len() as int)
    }
}

/// Whether all of some hosts have links to all of the others.
pub open spec fn all_linked(t: TopologyView, a: Seq<IpAddr>, b: Seq<IpAddr>) -> bool {
    forall|i: int, j: int|
        0 <= i < a.len() && 0 <= j < b.len() && a[i] != b[j] ==> #[trigger] t.linked(a[i], b[j])
}

/// Whether exactly the hosts have links, each two of them one.
pub open spec fn is_complete(t: TopologyView, hosts: Set<IpAddr>) -> bool {
    forall|a: IpAddr, b: IpAddr|
        a != b ==> (#[trigger] t.linked(a, b) <==> hosts.contains(a) && hosts.contains(b))
}

/// Whether two networks link the same hosts.
pub open spec fn same_links(t: TopologyView, u: TopologyView) -> bool {
    forall|a: IpAddr, b: IpAddr| #[trigger] t.linked(a, b) == u.linked(a, b)
}

impl WorldView {
    /// Whether exactly the hosts that are known have links, each two of them one, and the host
    /// that is running is known.
    pub open spec fn wf(self) -> bool {
        &&& self.order.no_duplicates()
        &&& forall|a: IpAddr| #[trigger] self.hosts.contains_key(a) <==> self.order.contains(a)
        &&& is_complete(self.topology, self.hosts.dom())
        &&& self.current is Some ==> self.hosts.contains_key(self.current->0)
    }

    /// The world with a host more.
    pub open spec fn registered(self, a: IpAddr, h: HostView) -> WorldView {
        WorldView {
            order: self.order.push(a),
            hosts: self.hosts.insert(a, h),
            topology: linked_to(self.topology, self.order, a, self.order.len() as int),
            ..self
        }
    }

    /// The host that is running.
    pub open spec fn running(self) -> HostView {
        self.hosts[self.current->0]
    }

    /// The world with the host that is running changed.
    pub open spec fn with_running(self, h: HostView) -> WorldView {
        WorldView { hosts: self.hosts.insert(self.current->0, h), ..self }
    }

    /// Whether the links between the hosts can carry a further message.
    pub open spec fn can_send(self, src: IpAddr, dst: IpAddr) -> bool {
        self.topology.linked(src, dst) ==> self.topology.links[top::pair(src, dst)].can_send(
            self.topology.latency,
        )
    }

    /// Whether the request for a connection with the number is on its way, or waits to be
    /// accepted.
    pub open spec fn is_pending(self, ack: u64) -> bool {
        ||| self.topology.carries(ack)
        ||| exists|a: IpAddr| #[trigger]
            self.hosts.contains_key(a) && self.hosts[a].tcp.holds(ack)
    }

    /// What a message that is sent does to the world.
    pub open spec fn sent(
        self,
        fate: Fate,
        src: SocketAddr,
        dst: SocketAddr,
        packet: Packet,
    ) -> WorldView {
        if self.topology.linked(src.ip, dst.ip) {
            WorldView { topology: self.topology.enqueued(fate, src, dst, packet), ..self }
        } else {
            self
        }
    }
}

/// What is done to some links leaves which hosts have links, and how many.
proof fn lemma_acted_keeps_links(t: TopologyView, action: LinkAction, a: IpAddr, b: IpAddr)
    requires
        t.linked(a, b),
    ensures
        t.acted(action, a, b).links.dom() == t.links.dom(),
        same_links(t.acted(action, a, b), t),
        t.acted(action, a, b).order == t.order,
{
    assert(t.acted(action, a, b).links.dom() =~= t.links.dom());
}

impl World {
    /// Whether the parts are well formed, exactly the known hosts have links, and the host
    /// that is running is known.
    pub closed spec fn wf(&self) -> bool {
        &&& hosts_wf(self.hosts@)
        &&& self.topology.wf()
        &&& self.dns.wf()
        &&& self.multicast_groups.wf()
        &&& is_complete(self@.topology, self@.hosts.dom())
        &&& self.current is Some ==> self@.hosts.contains_key(self.current->0)
    }

    /// The well formed world as it is seen.
    pub proof fn lemma_wf(&self)
        requires
            self.wf(),
        ensures
            self@.wf(),
            self@.dns.wf(),
            self@.topology.wf(),
            forall|a: IpAddr| #[trigger]
                self@.hosts.contains_key(a) ==> self@.hosts[a].addr == a,
    {
        let e = self.hosts@;
        let v = self@;
        lemma_keys();
        self.topology.lemma_wf();
        assert forall|i: int, j: int|
            0 <= i < v.order.len() && 0 <= j < v.order.len() && i != j implies v.order[i]
            != v.order[j] by {
            lemma_at(e, i);
            lemma_at(e, j);
            assert(e.order[i] != e.order[j]);
        }
        assert forall|a: IpAddr| #[trigger] v.hosts.contains_key(a) <==> v.order.contains(a) by {
            assert(top::ip_key()(a) == a.key());
            if v.hosts.contains_key(a) {
                let i = e.lemma_index(a.key());
                lemma_at(e, i);
                assert(top::ip_key()(v.order[i]) == top::ip_key()(a));
                assert(v.order[i] == a);
            }
            if v.order.contains(a) {
                let i = choose|i: int| 0 <= i < v.order.len() && v.order[i] == a;
                lemma_at(e, i);
            }
        }
        assert forall|a: IpAddr| #[trigger] v.hosts.contains_key(a) implies v.hosts[a].addr == a by {
            assert(top::ip_key()(a) == a.key());
            assert(e.has(a.key()));
            assert(top::ip_key()(v.hosts[a].addr) == top::ip_key()(a));
        }
    }

    /// A world without hosts.
    pub fn new(latency: Latency, dns: Dns) -> (r: World)
        requires
            dns.wf(),
        ensures
            r.wf(),
            r@ == (WorldView {
                order: Seq::empty(),
                hosts: Map::empty(),
                topology: TopologyView {
                    latency,
                    order: Seq::empty(),
                    links: Map::empty(),
                    now: Duration { nanos: 0 },
                },
                dns: dns@,
                groups: Map::empty(),
                current: None,
            }),
    {
        let r = World {
            hosts: KeyMap::new(),
            topology: Topology::new(latency),
            dns,
            multicast_groups: MulticastGroups::new(),
            current: None,
        };
        assert(r@.order =~= Seq::empty());
        assert(r@.hosts =~= Map::empty());
        r
    }

    /// The names of the hosts.
    pub fn dns(&self) -> (r: &Dns)
        requires
            self.wf(),
        ensures
            r.wf(),
            r@ == self@.dns,
    {
        &self.dns
    }

    /// The groups of sockets.
    pub fn groups(&self) -> (r: &MulticastGroups)
        requires
            self.wf(),
        ensures
            r.wf(),
            r@ == self@.groups,
    {
        &self.multicast_groups
    }

    /// The links between the hosts.
    pub fn topology(&self) -> (r: &Topology)
        requires
            self.wf(),
        ensures
            r.wf(),
            r@ == self@.topology,
    {
        &self.topology
    }

    /// The links between the hosts, to be changed.
    pub fn topology_mut(&mut self) -> (r: &mut Topology)
        requires
            old(self).wf(),
        ensures
            r.wf(),
            r@ == old(self)@.topology,
            final(self)@ == (WorldView { topology: final(r)@, ..old(self)@ }),
            final(r).wf() && same_links(final(r)@, r@) ==> final(self).wf(),
    {
        proof {
            let u = self@.topology;
            let hosts = self@.hosts.dom();
            assert forall|t: TopologyView| #[trigger] same_links(t, u) implies is_complete(t, hosts) by {
                assert forall|a: IpAddr, b: IpAddr| a != b implies (#[trigger] t.linked(a, b)
                    <==> hosts.contains(a) && hosts.contains(b)) by {
                    assert(t.linked(a, b) == u.linked(a, b));
                }
            }
        }
        &mut self.topology
    }

    /// Sets which host is running.
    pub fn set_current(&mut self, current: Option<IpAddr>)
        requires
            old(self).wf(),
            current is Some ==> old(self)@.hosts.contains_key(current->0),
        ensures
            final(self).wf(),
            final(self)@ == (WorldView { current, ..old(self)@ }),
    {
        self.current = current;
    }

    /// Whether a host has the address.
    pub fn has_host(&self, addr: IpAddr) -> (r: bool)
        ensures
            r == self@.hosts.contains_key(addr),
    {
        assert(top::ip_key()(addr) == addr.key());
        self.hosts.get(addr.key()).is_some()
    }

    /// The host at the address.
    pub fn host(&self, addr: IpAddr) -> (r: &Host)
        requires
            self.wf(),
            self@.hosts.contains_key(addr),
        ensures
            r.wf(),
            r@ == self@.hosts[addr],
            r@.addr == addr,
    {
        proof {
            assert(top::ip_key()(addr) == addr.key());
            assert(self.hosts@.has(addr.key()));
            self.lemma_wf();
        }
        self.hosts.get(addr.key()).unwrap()
    }

    /// The host at the address, to be changed.
    pub fn host_mut(&mut self, addr: IpAddr) -> (r: &mut Host)
        requires
            old(self).wf(),
            old(self)@.hosts.contains_key(addr),
        ensures
            r.wf(),
            r@ == old(self)@.hosts[addr],
            r@.addr == addr,
            final(r).wf() && final(r)@.addr == addr ==> final(self).wf(),
            final(r)@.addr == addr ==> final(self)@ == (WorldView {
                hosts: old(self)@.hosts.insert(addr, final(r)@),
                ..old(self)@
            }),
    {
        let ghost e = self.hosts@;
        proof {
            assert(top::ip_key()(addr) == addr.key());
            assert(e.has(addr.key()));
            self.lemma_wf();
            assert forall|h: Host| #[trigger] h.wf() implies {
                &&& shown_hosts(e.with(addr.key(), h)) == shown_hosts(e).insert(addr, h@)
                &&& h.addr == addr ==> shown_order(e.with(addr.key(), h)) == shown_order(e)
                &&& h.wf() && h.addr == addr ==> hosts_wf(e.with(addr.key(), h))
            } by {
                lemma_host_changed(e, addr, h);
            }
            assert forall|h: Host| h.addr == addr implies {
                &&& shown_hosts(#[trigger] e.with(addr.key(), h)) == shown_hosts(e).insert(addr, h@)
                &&& shown_order(e.with(addr.key(), h)) == shown_order(e)
            } by {
                lemma_host_changed(e, addr, h);
            }
        }
        let r = self.hosts.get_mut(addr.key()).unwrap();
        r
    }

    /// The host that is running.
    pub fn current_host(&self) -> (r: &Host)
        requires
            self.wf(),
            self@.current is Some,
        ensures
            r.wf(),
            r@ == self@.running(),
            r@.addr == self@.current->0,
    {
        self.host(self.current.unwrap())
    }

    /// The host that is running, to be changed.
    pub fn current_host_mut(&mut self) -> (r: &mut Host)
        requires
            old(self).wf(),
            old(self)@.current is Some,
        ensures
            r.wf(),
            r@ == old(self)@.running(),
            r@.addr == old(self)@.current->0,
            final(r).wf() && final(r)@.addr == r@.addr ==> final(self).wf(),
            final(r)@.addr == r@.addr ==> final(self)@ == old(self)@.with_running(final(r)@),
    {
        let addr = self.current.unwrap();
        self.host_mut(addr)
    }
}

/// Two pairs are the same exactly where the same two hosts are in them.
proof fn lemma_pairs(a: IpAddr, b: IpAddr, c: IpAddr, d: IpAddr)
    requires
        a != b,
        c != d,
    ensures
        top::pair(a, b) == top::pair(c, d) <==> (a == c && b == d) || (a == d && b == c),
{
    addr::law_addresses_are_ordered(a, b);
    addr::law_addresses_are_ordered(c, d);
}

/// The new host has links to the first `n` hosts, and nothing else changes.
proof fn lemma_linked_to(t: TopologyView, hosts: Seq<IpAddr>, a: IpAddr, n: int)
    requires
        0 <= n <= hosts.len(),
        forall|i: int| 0 <= i < n ==> hosts[i] != a,
    ensures
        forall|x: IpAddr, y: IpAddr|
            #![trigger linked_to(t, hosts, a, n).linked(x, y)]
            linked_to(t, hosts, a, n).linked(x, y) <==> t.linked(x, y) || (x == a && hosts.take(
                n,
            ).contains(y)) || (y == a && hosts.take(n).contains(x)),
    decreases n,
{
    if n > 0 {
        lemma_linked_to(t, hosts, a, n - 1);
        let before = linked_to(t, hosts, a, n - 1);
        let after = linked_to(t, hosts, a, n);
        let h = hosts[n - 1];
        assert forall|x: IpAddr|
            hosts.take(n).contains(x) <==> hosts.take(n - 1).contains(x) || x == h by {
            if hosts.take(n).contains(x) {
                let i = choose|i: int| 0 <= i < n && hosts.take(n)[i] == x;
                if i < n - 1 {
                    assert(hosts.take(n - 1)[i] == x);
                }
            }
            let shorter = hosts.take(n - 1);
            if shorter.contains(x) {
                let i = choose|i: int| 0 <= i < shorter.len() && shorter[i] == x;
                assert(hosts.take(n)[i] == x);
            }
            if x == h {
                assert(hosts.take(n)[n - 1] == x);
            }
        }
        assert forall|x: IpAddr, y: IpAddr|
            #![trigger after.linked(x, y)]
            after.linked(x, y) <==> t.linked(x, y) || (x == a && hosts.take(n).contains(y)) || (y
                == a && hosts.take(n).contains(x)) by {
            assert(before.linked(x, y) <==> t.linked(x, y) || (x == a && hosts.take(
                n - 1,
            ).contains(y)) || (y == a && hosts.take(n - 1).contains(x)));
            if x != y {
                lemma_pairs(x, y, h, a);
            } else {
                if hosts.take(n).contains(x) {
                    let i = choose|i: int| 0 <= i < n && hosts.take(n)[i] == x;
                    assert(hosts[i] != a);
                }
            }
        }
    } else {
        assert(hosts.take(0) =~= Seq::empty());
    }
}

impl World {
    /// Adds a host, which has links to all others.
    pub fn register(&mut self, addr: IpAddr, timer: HostTimer, config: &Config)
        requires
            old(self).wf(),
            !old(self)@.hosts.contains_key(addr),
            config.ephemeral_ports.first <= config.ephemeral_ports.last,
        ensures
            final(self).wf(),
            final(self)@ == old(self)@.registered(
                addr,
                HostView::fresh(
                    addr,
                    timer,
                    config.ephemeral_ports,
                    config.tcp_capacity,
                    config.udp_capacity,
                ),
            ),
    {
        let ghost start = self@;
        let ghost e = self.hosts@;
        proof {
            self.lemma_wf();
        }
        let n: usize = self.hosts.len();
        let mut i: usize = 0;
        while i < n
            invariant
                i <= n,
                n == start.order.len(),
                start == old(self)@,
                start.wf(),
                e == old(self).hosts@,
                self.hosts@ == e,
                hosts_wf(e),
                start.order == shown_order(e),
                !start.hosts.contains_key(addr),
                self.dns == old(self).dns,
                self.multicast_groups == old(self).multicast_groups,
                self.current == old(self).current,
                self.topology.wf(),
                self.topology@ == linked_to(start.topology, start.order, addr, i as int),
            decreases n - i,
        {
            proof {
                lemma_at(e, i as int);
                assert forall|k: int| 0 <= k < n implies start.order[k] != addr by {
                    assert(start.order.contains(start.order[k]));
                }
                lemma_linked_to(start.topology, start.order, addr, i as int);
                let x = start.order[i as int];
                assert(start.order.contains(x));
                assert(!start.order.take(i as int).contains(x)) by {
                    if start.order.take(i as int).contains(x) {
                        let k = choose|k: int|
                            0 <= k < i && start.order.take(i as int)[k] == x;
                        assert(start.order[k] == start.order[i as int]);
                    }
                }
                assert(!self.topology@.linked(x, addr));
            }
            let existing = match self.hosts.get_index(i) {
                Some((_, host)) => host.addr,
                None => addr,
            };
            self.topology.register(existing, addr);
            i = i + 1;
        }
        let host = Host::with_timer(
            addr,
            timer,
            config.ephemeral_ports,
            config.tcp_capacity,
            config.udp_capacity,
        );
        let ghost value = host;
        assert(top::ip_key()(addr) == addr.key());
        let _ = self.hosts.insert(addr.key(), host);
        proof {
            lemma_host_added(e, addr, value);
            assert forall|k: int| 0 <= k < n implies start.order[k] != addr by {
                assert(start.order.contains(start.order[k]));
            }
            lemma_linked_to(start.topology, start.order, addr, n as int);
            assert(start.order.take(n as int) =~= start.order);
            let t = self@.topology;
            let hosts = self@.hosts.dom();
            assert forall|a: IpAddr, b: IpAddr| a != b implies (#[trigger] t.linked(a, b)
                <==> hosts.contains(a) && hosts.contains(b)) by {
                assert(start.topology.linked(a, b) <==> start.hosts.contains_key(a)
                    && start.hosts.contains_key(b));
                assert(start.hosts.contains_key(a) <==> start.order.contains(a));
                assert(start.hosts.contains_key(b) <==> start.order.contains(b));
            }
            assert(self@ =~= start.registered(addr, value@));
        }
    }

    /// Registers a name and returns it with its address.
    pub fn register_name<T: ToIpAddr>(&mut self, addr: &T) -> (r: (Vec<u8>, IpAddr))
        requires
            old(self).wf(),
            addr.resolved(old(self)@.dns) is None ==> !old(self)@.dns.is_unaddressed(
                addr.name_text(),
            ),
        ensures
            final(self).wf(),
            r.0@ == addr.name_text(),
            final(self)@ == (WorldView {
                dns: old(self)@.dns.registered_alone(
                    addr.name_text(),
                    addr.resolved(old(self)@.dns),
                ),
                ..old(self)@
            }),
            r.1 == final(self)@.dns.names.map[addr.name_text()][0],
    {
        self.dns.register_legacy(addr)
    }

    /// The address that is asked for.
    pub fn lookup<T: ToIpAddr>(&self, host: &T) -> (r: IpAddr)
        requires
            self.wf(),
            host.resolved(self@.dns) is Some,
        ensures
            r == host.resolved(self@.dns)->0,
    {
        self.dns.lookup(host)
    }

    /// The addresses that are asked for.
    pub fn lookup_many<T: ToIpAddrs>(&self, hosts: &T) -> (r: Vec<IpAddr>)
        requires
            self.wf(),
        ensures
            r@ == hosts.resolved_all(self@.dns),
    {
        self.dns.lookup_many(hosts)
    }

    /// The name of the host at the address.
    pub fn reverse_lookup(&self, addr: IpAddr) -> (r: Option<Vec<u8>>)
        requires
            self.wf(),
        ensures
            match r {
                Some(name) => self@.dns.first_named(addr, 0) < self@.dns.names.order.len() && name@
                    == self@.dns.names.order[self@.dns.first_named(addr, 0)],
                None => self@.dns.first_named(addr, 0) == self@.dns.names.order.len(),
            },
    {
        self.dns.reverse(addr)
    }

    /// Does something to the links between some hosts and others, where they are different.
    pub fn for_pairs(&mut self, action: LinkAction, a: &Vec<IpAddr>, b: &Vec<IpAddr>)
        requires
            old(self).wf(),
            all_linked(old(self)@.topology, a@, b@),
        ensures
            final(self).wf(),
            final(self)@ == (WorldView {
                topology: acted_all(old(self)@.topology, action, a@, b@, a@.len() as int),
                ..old(self)@
            }),
    {
        let ghost start = self@;
        let ghost t = start.topology;
        let mut i: usize = 0;
        while i < a.len()
            invariant
                i <= a@.len(),
                start == old(self)@,
                t == start.topology,
                all_linked(t, a@, b@),
                self.wf(),
                self@ == (WorldView {
                    topology: acted_all(t, action, a@, b@, i as int),
                    ..start
                }),
                same_links(self@.topology, t),
            decreases a.len() - i,
        {
            let mut j: usize = 0;
            let ghost row = acted_all(t, action, a@, b@, i as int);
            while j < b.len()
                invariant
                    i < a@.len(),
                    j <= b@.len(),
                    start == old(self)@,
                    t == start.topology,
                    all_linked(t, a@, b@),
                    self.wf(),
                    self@ == (WorldView {
                        topology: acted_row(row, action, a@[i as int], b@, j as int),
                        ..start
                    }),
                    same_links(self@.topology, t),
                decreases b.len() - j,
            {
                let first = a[i];
                let second = b[j];
                if first != second {
                    proof {
                        assert(t.linked(a@[i as int], b@[j as int]));
                        assert(self@.topology.linked(first, second) == t.linked(first, second));
                        lemma_acted_keeps_links(self@.topology, action, first, second);
                    }
                    let ghost before = self@;
                    let topology = self.topology_mut();
                    topology.act(action, first, second);
                    proof {
                        assert forall|x: IpAddr, y: IpAddr| #[trigger]
                            self@.topology.linked(x, y) == t.linked(x, y) by {
                            assert(self@.topology.linked(x, y) == before.topology.linked(x, y));
                        }
                    }
                }
                j = j + 1;
            }
            i = i + 1;
        }
    }

    /// Keeps the messages between some hosts and others.
    pub fn hold_many<A: ToIpAddrs, B: ToIpAddrs>(&mut self, a: &A, b: &B)
        requires
            old(self).wf(),
            all_linked(
                old(self)@.topology,
                a.resolved_all(old(self)@.dns),
                b.resolved_all(old(self)@.dns),
            ),
        ensures
            final(self).wf(),
            final(self)@ == old(self)@.acted_on(
                LinkAction::Hold,
                a.resolved_all(old(self)@.dns),
                b.resolved_all(old(self)@.dns),
            ),
    {
        let a = self.lookup_many(a);
        let b = self.lookup_many(b);
        self.for_pairs(LinkAction::Hold, &a, &b);
    }

    /// Has the messages between some hosts and others that were kept delivered.
    pub fn release_many<A: ToIpAddrs, B: ToIpAddrs>(&mut self, a: &A, b: &B)
        requires
            old(self).wf(),
            all_linked(
                old(self)@.topology,
                a.resolved_all(old(self)@.dns),
                b.resolved_all(old(self)@.dns),
            ),
        ensures
            final(self).wf(),
            final(self)@ == old(self)@.acted_on(
                LinkAction::Release,
                a.resolved_all(old(self)@.dns),
                b.resolved_all(old(self)@.dns),
            ),
    {
        let a = self.lookup_many(a);
        let b = self.lookup_many(b);
        self.for_pairs(LinkAction::Release, &a, &b);
    }

    /// Drops the messages between some hosts and others.
    pub fn partition_many<A: ToIpAddrs, B: ToIpAddrs>(&mut self, a: &A, b: &B)
        requires
            old(self).wf(),
            all_linked(
                old(self)@.topology,
                a.resolved_all(old(self)@.dns),
                b.resolved_all(old(self)@.dns),
            ),
        ensures
            final(self).wf(),
            final(self)@ == old(self)@.acted_on(
                LinkAction::Partition,
                a.resolved_all(old(self)@.dns),
                b.resolved_all(old(self)@.dns),
            ),
    {
        let a = self.lookup_many(a);
        let b = self.lookup_many(b);
        self.for_pairs(LinkAction::Partition, &a, &b);
    }

    /// Drops the messages from some hosts to others.
    pub fn partition_oneway_many<A: ToIpAddrs, B: ToIpAddrs>(&mut self, a: &A, b: &B)
        requires
            old(self).wf(),
            all_linked(
                old(self)@.topology,
                a.resolved_all(old(self)@.dns),
                b.resolved_all(old(self)@.dns),
            ),
        ensures
            final(self).wf(),
            final(self)@ == old(self)@.acted_on(
                LinkAction::PartitionOneway,
                a.resolved_all(old(self)@.dns),
                b.resolved_all(old(self)@.dns),
            ),
    {
        let a = self.lookup_many(a);
        let b = self.lookup_many(b);
        self.for_pairs(LinkAction::PartitionOneway, &a, &b);
    }

    /// Lets the messages between some hosts and others pass.
    pub fn repair_many<A: ToIpAddrs, B: ToIpAddrs>(&mut self, a: &A, b: &B)
        requires
            old(self).wf(),
            all_linked(
                old(self)@.topology,
                a.resolved_all(old(self)@.dns),
                b.resolved_all(old(self)@.dns),
            ),
        ensures
            final(self).wf(),
            final(self)@ == old(self)@.acted_on(
                LinkAction::Repair,
                a.resolved_all(old(self)@.dns),
                b.resolved_all(old(self)@.dns),
            ),
    {
        let a = self.lookup_many(a);
        let b = self.lookup_many(b);
        self.for_pairs(LinkAction::Repair, &a, &b);
    }

    /// Lets the messages from some hosts to others pass.
    pub fn repair_oneway_many<A: ToIpAddrs, B: ToIpAddrs>(&mut self, a: &A, b: &B)
        requires
            old(self).wf(),
            all_linked(
                old(self)@.topology,
                a.resolved_all(old(self)@.dns),
                b.resolved_all(old(self)@.dns),
            ),
        ensures
            final(self).wf(),
            final(self)@ == old(self)@.acted_on(
                LinkAction::RepairOneway,
                a.resolved_all(old(self)@.dns),
                b.resolved_all(old(self)@.dns),
            ),
    {
        let a = self.lookup_many(a);
        let b = self.lookup_many(b);
        self.for_pairs(LinkAction::RepairOneway, &a, &b);
    }

    /// Sends a message from one host to another.
    pub fn send_message(
        &mut self,
        fate: Fate,
        src: SocketAddr,
        dst: SocketAddr,
        message: Protocol,
    ) -> (r: Result<(), Error>)
        requires
            old(self).wf(),
            src.ip != dst.ip,
            old(self)@.can_send(src.ip, dst.ip),
        ensures
            final(self).wf(),
            final(self)@ == old(self)@.sent(fate, src, dst, message@),
            r == (if old(self)@.topology.linked(src.ip, dst.ip) {
                Ok::<(), Error>(())
            } else {
                Err(Error { kind: ErrorKind::ConnectionRefused, cause: Cause::Refused })
            }),
    {
        let ghost before = self@;
        let topology = self.topology_mut();
        let r = topology.enqueue_message(fate, src, dst, message);
        proof {
            if before.topology.linked(src.ip, dst.ip) {
                assert(self@.topology.links.dom() =~= before.topology.links.dom());
            }
        }
        r
    }

    /// Hands the host at the address the messages that are ready for it.
    pub fn deliver_messages(&mut self, addr: IpAddr)
        requires
            old(self).wf(),
            old(self)@.hosts.contains_key(addr),
            old(self)@.topology.is_deliverable(addr),
        ensures
            final(self).wf(),
            final(self)@ == (WorldView {
                hosts: old(self)@.hosts.insert(
                    addr,
                    old(self)@.topology.delivered(
                        old(self)@.hosts[addr],
                        old(self)@.topology.order.len() as int,
                    ),
                ),
                topology: old(self)@.topology.drained(addr),
                ..old(self)@
            }),
    {
        let ghost start = self@;
        let ghost e = self.hosts@;
        proof {
            self.lemma_wf();
            assert(top::ip_key()(addr) == addr.key());
            assert(e.has(addr.key()));
        }
        match self.hosts.get_mut(addr.key()) {
            Some(host) => {
                proof {
                    top::lemma_delivered_addr(
                        start.topology,
                        host@,
                        start.topology.order.len() as int,
                    );
                }
                self.topology.deliver_messages(host);
                let ghost changed = *host;
                proof {
                    lemma_host_changed(e, addr, changed);
                }
            },
            None => {},
        }
        proof {
            let t = self@.topology;
            assert(t.links.dom() =~= start.topology.links.dom());
            assert(self@.hosts.dom() =~= start.hosts.dom());
            assert(same_links(t, start.topology));
            assert(is_complete(t, self@.hosts.dom())) by {
                assert forall|a: IpAddr, b: IpAddr| a != b implies (#[trigger] t.linked(a, b)
                    <==> self@.hosts.dom().contains(a) && self@.hosts.dom().contains(b)) by {
                    assert(t.linked(a, b) == start.topology.linked(a, b));
                }
            }
        }
    }

    /// Adds a step to the time of the host at the address.
    pub fn tick(&mut self, addr: IpAddr, duration: Duration)
        requires
            old(self).wf(),
            old(self)@.hosts.contains_key(addr),
            old(self)@.hosts[addr].timer.elapsed.nanos + duration.nanos <= u128::MAX,
        ensures
            final(self).wf(),
            final(self)@ == (WorldView {
                hosts: old(self)@.hosts.insert(
                    addr,
                    HostView {
                        timer: HostTimer {
                            elapsed: Duration {
                                nanos: (old(self)@.hosts[addr].timer.elapsed.nanos
                                    + duration.nanos) as u128,
                            },
                            ..old(self)@.hosts[addr].timer
                        },
                        ..old(self)@.hosts[addr]
                    },
                ),
                ..old(self)@
            }),
    {
        let host = self.host_mut(addr);
        host.tick(duration);
    }

    /// Adds a socket to a group.
    pub fn join_group(&mut self, group: IpAddr, member: SocketAddr)
        requires
            old(self).wf(),
        ensures
            final(self).wf(),
            final(self)@ == (WorldView {
                groups: crate::net::groups::joined(
                    old(self)@.groups,
                    crate::net::groups::group_of(group, member),
                    member,
                ),
                ..old(self)@
            }),
    {
        self.multicast_groups.join(group, member);
    }

    /// Takes a socket out of a group.
    pub fn leave_group(&mut self, group: IpAddr, member: SocketAddr)
        requires
            old(self).wf(),
        ensures
            final(self).wf(),
            final(self)@ == (WorldView {
                groups: crate::net::groups::left(
                    old(self)@.groups,
                    crate::net::groups::group_of(group, member),
                    member,
                ),
                ..old(self)@
            }),
    {
        self.multicast_groups.leave(group, member);
    }

    /// Takes a socket out of every group.
    pub fn leave_all_groups(&mut self, member: SocketAddr)
        requires
            old(self).wf(),
        ensures
            final(self).wf(),
            final(self)@ == (WorldView {
                groups: crate::net::groups::left_all(old(self)@.groups, member),
                ..old(self)@
            }),
    {
        self.multicast_groups.leave_all(member);
    }

    /// The number of connected sockets of the host that is running.
    pub fn est_tcp_streams(&self) -> (r: usize)
        requires
            self.wf(),
            self@.current is Some,
        ensures
            r == self@.running().tcp.sockets.len(),
    {
        self.current_host().tcp.stream_count()
    }

    /// The number of connected sockets of a host.
    pub fn est_tcp_streams_on<T: ToIpAddr>(&self, addr: &T) -> (r: usize)
        requires
            self.wf(),
            addr.resolved(self@.dns) is Some,
            self@.hosts.contains_key(addr.resolved(self@.dns)->0),
        ensures
            r == self@.hosts[addr.resolved(self@.dns)->0].tcp.sockets.len(),
    {
        let a = self.lookup(addr);
        self.host(a).tcp.stream_count()
    }

    /// Whether the request for a connection with the number is on its way, or waits to be
    /// accepted.
    pub fn is_pending(&self, ack: u64) -> (r: bool)
        requires
            self.wf(),
        ensures
            r == self@.is_pending(ack),
    {
        if self.topology.carries(ack) {
            return true;
        }
        let ghost e = self.hosts@;
        let n: usize = self.hosts.len();
        let mut i: usize = 0;
        while i < n
            invariant
                i <= n,
                e == self.hosts@,
                n == e.order.len(),
                hosts_wf(e),
                forall|k: int|
                    #![trigger e.order[k]]
                    0 <= k < i ==> !e.nth(k)@.tcp.holds(ack),
            decreases n - i,
        {
            proof {
                lemma_at(e, i as int);
            }
            match self.hosts.get_index(i) {
                Some((_, host)) => {
                    if host.tcp.holds(ack) {
                        assert(self@.hosts.contains_key(shown_order(e)[i as int]));
                        return true;
                    }
                },
                None => {},
            }
            i = i + 1;
        }
        proof {
            assert forall|a: IpAddr| #[trigger] self@.hosts.contains_key(a) implies !(
            self@.hosts[a].tcp.holds(ack)) by {
                assert(top::ip_key()(a) == a.key());
                let k = e.lemma_index(a.key());
                assert(e.order[k] == a.key());
            }
        }
        false
    }

    /// Whether the links between the hosts can carry a further message.
    pub fn can_send(&self, src: IpAddr, dst: IpAddr) -> (r: bool)
        ensures
            r == self@.can_send(src, dst),
    {
        self.topology.can_send(src, dst)
    }

    /// The addresses of the hosts, in the order in which they came.
    pub fn host_addrs(&self) -> (r: Vec<IpAddr>)
        requires
            self.wf(),
        ensures
            r@ == self@.order,
    {
        let n: usize = self.hosts.len();
        let mut out: Vec<IpAddr> = Vec::new();
        let mut i: usize = 0;
        while i < n
            invariant
                i <= n,
                n == self@.order.len(),
                n == self.hosts@.order.len(),
                out@ == self@.order.take(i as int),
            decreases n - i,
        {
            match self.hosts.get_index(i) {
                Some((_, host)) => {
                    out.push(host.addr);
                },
                None => {},
            }
            i = i + 1;
            assert(out@ =~= self@.order.take(i as int));
        }
        assert(out@ =~= self@.order);
        out
    }
}

impl WorldView {
    /// The world after something is done to the links between some hosts and others.
    pub open spec fn acted_on(self, action: LinkAction, a: Seq<IpAddr>, b: Seq<IpAddr>) -> WorldView {
        WorldView { topology: acted_all(self.topology, action, a, b, a.len() as int), ..self }
    }
}

/// How long the host that is running has been running.
pub fn elapsed(world: &World, clock: Duration) -> (r: Duration)
    requires
        world.wf(),
        world@.current is Some,
        world@.running().timer.now is Some,
        world@.running().timer.elapsed_at(clock) <= u128::MAX,
    ensures
        r.nanos == world@.running().timer.elapsed_at(clock),
{
    world.current_host().timer.elapsed(clock)
}

/// Whether a host is running in the world.
pub open spec fn is_running(world: Option<&World>) -> bool {
    world is Some && world->0@.current is Some
}

/// How long the simulation has been running, where a host of it is.
pub fn sim_elapsed(world: Option<&World>, clock: Duration) -> (r: Option<Duration>)
    requires
        is_running(world) ==> {
            let timer = world->0@.running().timer;
            timer.now is Some && timer.elapsed_at(clock) + timer.start_offset.nanos <= u128::MAX
        },
        world is Some ==> world->0.wf(),
    ensures
        match r {
            Some(d) => {
                let timer = world->0@.running().timer;
                is_running(world) && d.nanos == timer.elapsed_at(clock) + timer.start_offset.nanos
            },
            None => !is_running(world),
        },
{
    match world {
        Some(w) => if w.current.is_some() {
            Some(w.current_host().timer.sim_elapsed(clock))
        } else {
            None
        },
        None => None,
    }
}

/// The time from the epoch until now, where a host of the simulation is running.
pub fn since_epoch(world: Option<&World>, clock: Duration) -> (r: Option<Duration>)
    requires
        is_running(world) ==> {
            let timer = world->0@.running().timer;
            timer.now is Some && timer.elapsed_at(clock) + timer.start_offset.nanos
                + timer.epoch.nanos <= u128::MAX
        },
        world is Some ==> world->0.wf(),
    ensures
        match r {
            Some(d) => {
                let timer = world->0@.running().timer;
                is_running(world) && d.nanos == timer.elapsed_at(clock) + timer.start_offset.nanos
                    + timer.epoch.nanos
            },
            None => !is_running(world),
        },
{
    match world {
        Some(w) => if w.current.is_some() {
            Some(w.current_host().timer.since_epoch(clock))
        } else {
            None
        },
        None => None,
    }
}

/// The number of connected sockets of the host that is running.
pub fn established_tcp_stream_count(world: &World) -> (r: usize)
    requires
        world.wf(),
        world@.current is Some,
    ensures
        r == world@.running().tcp.sockets.len(),
{
    world.est_tcp_streams()
}

/// The number of connected sockets of a host.
pub fn established_tcp_stream_count_on<T: ToIpAddr>(world: &World, addr: &T) -> (r: usize)
    requires
        world.wf(),
        addr.resolved(world@.dns) is Some,
        world@.hosts.contains_key(addr.resolved(world@.dns)->0),
    ensures
        r == world@.hosts[addr.resolved(world@.dns)->0].tcp.sockets.len(),
{
    world.est_tcp_streams_on(addr)
}

} // verus!
