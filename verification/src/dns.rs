//! Names of hosts.
use crate::addr::{IpAddr, Ipv4Addr, Ipv6Addr, SocketAddr};
use crate::error::{Cause, Error, ErrorKind};
use crate::ip;
use crate::ip::{IpSubnet, IpSubnets, IpVersionAddrIter};
use crate::ordered::{Entries, NameMap};
use crate::path::bytes_copy;
use crate::pattern;
use crate::pattern::Pattern;
use crate::text;
use crate::text::COLON;
use vstd::prelude::*;
use vstd::slice::{slice_subrange, slice_to_vec};

verus! {

/// The addresses of a host.
pub struct NodeInfo {
    /// The addresses, one for each network.
    pub addrs: Vec<IpAddr>,
}

/// The names of the hosts, and the addresses that are free.
pub struct Dns {
    addrs: IpVersionAddrIter,
    subnets: IpSubnets,
    counters: Vec<u128>,
    mapping: NameMap<NodeInfo>,
}

/// What a name server knows.
#[verifier::ext_equal]
pub struct DnsView {
    /// The addresses for hosts that are on one network only.
    pub addrs: IpVersionAddrIter,
    /// The networks.
    pub subnets: Seq<IpSubnet>,
    /// The number below the prefix in the next address of each network.
    pub counters: Seq<u128>,
    /// The names, in the order in which they came, each with its addresses.
    pub names: Entries<Seq<u8>, Seq<IpAddr>>,
}

/// The entries with the addresses in place of what holds them.
pub closed spec fn addresses(e: Entries<Seq<u8>, NodeInfo>) -> Entries<Seq<u8>, Seq<IpAddr>> {
    Entries { order: e.order, map: e.map.map_values(|info: NodeInfo| info.addrs@) }
}

impl View for Dns {
    type V = DnsView;

    closed spec fn view(&self) -> DnsView {
        DnsView {
            addrs: self.addrs,
            subnets: self.subnets@,
            counters: self.counters@,
            names: addresses(self.mapping@),
        }
    }
}

impl DnsView {
    /// Whether the networks are apart, and each has its counter.
    pub open spec fn wf(self) -> bool {
        &&& ip::are_disjoint(self.subnets)
        &&& self.counters.len() == self.subnets.len()
        &&& self.names.wf()
    }

    /// Whether the host of each name has an address.
    pub open spec fn all_addressed(self) -> bool {
        forall|n: Seq<u8>| #[trigger] self.names.has(n) ==> self.names.map[n].len() > 0
    }

    /// Whether the text is the name of a host that has no address.
    pub open spec fn is_unaddressed(self, t: Seq<u8>) -> bool {
        self.names.has(t) && self.names.map[t].len() == 0
    }

    /// The address that a text stands for: the one that it writes, or the first one of the
    /// host of that name. It stands for none if that host has none.
    pub open spec fn resolved(self, t: Seq<u8>) -> Option<IpAddr> {
        match text::parsed_ip(t) {
            Some(a) => Some(a),
            None => if self.names.has(t) && self.names.map[t].len() > 0 {
                Some(self.names.map[t][0])
            } else {
                None
            },
        }
    }

    /// The socket address that a host and a port stand for.
    pub open spec fn socket(self, host: Seq<u8>, port: u16) -> Result<SocketAddr, Error> {
        match self.resolved(host) {
            Some(ip) => Ok(SocketAddr { ip, port }),
            None => Err(Error { kind: ErrorKind::NotFound, cause: Cause::HostNotFound }),
        }
    }

    /// The socket address that a text stands for: the one that it writes, or a host and a
    /// port with a colon between them.
    pub open spec fn socket_text(self, t: Seq<u8>) -> Result<SocketAddr, Error> {
        let k = text::find_last(t, COLON, t.len() as int);
        match text::parsed_socket(t) {
            Some(a) => Ok(a),
            None => if k < 0 {
                Err(Error { kind: ErrorKind::InvalidInput, cause: Cause::InvalidSocketAddress })
            } else {
                match text::unsigned(t.skip(k + 1), 0xffff) {
                    None => Err(Error { kind: ErrorKind::InvalidInput, cause: Cause::InvalidPort }),
                    Some(port) => self.socket(t.take(k), port as u16),
                }
            },
        }
    }

    /// The address that a host with the given fixed addresses has in the network at the
    /// index: the first of them that lies in it, or else a fresh one.
    pub open spec fn bound_addr(self, fixed: Seq<IpAddr>, i: int) -> IpAddr {
        let j = first_in(self.subnets[i], fixed, 0);
        if j < fixed.len() {
            fixed[j]
        } else {
            self.subnets[i].member(self.counters[i])
        }
    }

    /// What the server knows once a host with the given fixed addresses is registered.
    pub open spec fn registered(self, name: Seq<u8>, fixed: Seq<IpAddr>) -> DnsView {
        DnsView {
            counters: Seq::new(
                self.counters.len(),
                |i: int|
                    if first_in(self.subnets[i], fixed, 0) < fixed.len() {
                        self.counters[i]
                    } else {
                        next_count(self.counters[i])
                    },
            ),
            names: self.names.with(
                name,
                Seq::new(self.subnets.len(), |i: int| self.bound_addr(fixed, i)),
            ),
            ..self
        }
    }

    /// What the server knows once a host that asked for an address, or for none, is
    /// registered on one network.
    pub open spec fn registered_alone(self, name: Seq<u8>, asked: Option<IpAddr>) -> DnsView {
        match asked {
            Some(a) => DnsView { names: self.names.with(name, seq![a]), ..self },
            None => DnsView {
                addrs: IpVersionAddrIter {
                    version: self.addrs.version,
                    next: next_count(self.addrs.next),
                },
                names: self.names.with(
                    name,
                    seq![ip::version_addr(self.addrs.version, self.addrs.next)],
                ),
                ..self
            },
        }
    }

    /// The index of the first name, from the given one on, that has the address, or the
    /// number of names.
    pub open spec fn first_named(self, a: IpAddr, i: int) -> int
        decreases self.names.order.len() - i,
    {
        if i >= self.names.order.len() {
            self.names.order.len() as int
        } else if self.names.nth(i).contains(a) {
            i
        } else {
            self.first_named(a, i + 1)
        }
    }

    /// The addresses that those of the first `n` names stand for that are hit.
    pub open spec fn hit_addrs(self, hits: Seq<bool>, n: int) -> Seq<IpAddr>
        decreases n,
    {
        if n <= 0 {
            Seq::empty()
        } else {
            let rest = self.hit_addrs(hits, n - 1);
            match self.resolved(self.names.order[n - 1]) {
                Some(a) => if hits[n - 1] {
                    rest.push(a)
                } else {
                    rest
                },
                None => rest,
            }
        }
    }
}

/// The count that follows. The largest is followed by zero.
pub open spec fn next_count(n: u128) -> u128 {
    if n == u128::MAX {
        0
    } else {
        (n + 1) as u128
    }
}

/// The index of the first of the addresses, from the given one on, that lies in the
/// network, or their number.
pub open spec fn first_in(subnet: IpSubnet, addrs: Seq<IpAddr>, j: int) -> int
    decreases addrs.len() - j,
{
    if j >= addrs.len() {
        addrs.len() as int
    } else if subnet.holds(addrs[j]) {
        j
    } else {
        first_in(subnet, addrs, j + 1)
    }
}

proof fn lemma_first_in(subnet: IpSubnet, addrs: Seq<IpAddr>, j: int)
    requires
        0 <= j <= addrs.len(),
    ensures
        j <= first_in(subnet, addrs, j) <= addrs.len(),
        first_in(subnet, addrs, j) < addrs.len() ==> subnet.holds(
            addrs[first_in(subnet, addrs, j)],
        ),
    decreases addrs.len() - j,
{
    if j < addrs.len() && !subnet.holds(addrs[j]) {
        lemma_first_in(subnet, addrs, j + 1);
    }
}

proof fn lemma_addresses(e: Entries<Seq<u8>, NodeInfo>, name: Seq<u8>, info: NodeInfo)
    ensures
        addresses(e.with(name, info)) == addresses(e).with(name, info.addrs@),
{
    assert(addresses(e.with(name, info)).map =~= addresses(e).with(name, info.addrs@).map);
}

impl Dns {
    /// Whether the networks are apart, each has its counter, and each name an address.
    pub open spec fn wf(&self) -> bool {
        self@.wf()
    }

    /// A server that knows no name.
    pub fn new(addrs: IpVersionAddrIter, subnets: IpSubnets) -> (r: Dns)
        requires
            ip::are_disjoint(subnets@),
        ensures
            r.wf(),
            r@.addrs == addrs,
            r@.subnets == subnets@,
            r@.counters == Seq::new(subnets@.len(), |i: int| 1u128),
            r@.names == Entries::<Seq<u8>, Seq<IpAddr>>::none(),
    {
        let n: usize = subnets.len();
        let mut counters: Vec<u128> = Vec::new();
        let mut i: usize = 0;
        while i < n
            invariant
                i <= n,
                counters@ == Seq::new(i as nat, |k: int| 1u128),
            decreases n - i,
        {
            counters.push(1);
            i = i + 1;
            assert(counters@ =~= Seq::new(i as nat, |k: int| 1u128));
        }
        let mapping: NameMap<NodeInfo> = NameMap::new();
        assert(addresses(mapping@) =~= Entries::none());
        Dns { addrs, subnets, counters, mapping }
    }

    /// The address that a new host gets which asks for none.
    pub fn next_addr(&self) -> (r: IpAddr)
        ensures
            r == ip::version_addr(self@.addrs.version, self@.addrs.next),
    {
        let mut addrs = self.addrs;
        addrs.next_addr()
    }

    /// Registers a host on one network and returns its name and its address: the one that
    /// it asks for, or else a fresh one.
    pub fn register_legacy<T: ToIpAddr>(&mut self, addr: &T) -> (r: (Vec<u8>, IpAddr))
        requires
            old(self).wf(),
            addr.resolved(old(self)@) is None ==> !old(self)@.is_unaddressed(addr.name_text()),
        ensures
            final(self).wf(),
            r.0@ == addr.name_text(),
            r.1 == (match addr.resolved(old(self)@) {
                Some(a) => a,
                None => ip::version_addr(old(self)@.addrs.version, old(self)@.addrs.next),
            }),
            final(self)@ == old(self)@.registered_alone(
                addr.name_text(),
                addr.resolved(old(self)@),
            ),
    {
        let scoped_addr = match addr.to_ip_addr(self) {
            Some(a) => a,
            None => self.addrs.next_addr(),
        };
        let name = addr.to_name();
        let ghost before = self.mapping@;
        let mut addrs: Vec<IpAddr> = Vec::new();
        addrs.push(scoped_addr);
        let info = NodeInfo { addrs };
        let key = bytes_copy(&name);
        let ghost value = info;
        let _ = self.mapping.insert(key, info);
        proof {
            lemma_addresses(before, name@, value);
            addresses(before).lemma_with(name@, value.addrs@);
            assert(value.addrs@ =~= seq![scoped_addr]);
            assert(self@ =~= old(self)@.registered_alone(
                addr.name_text(),
                addr.resolved(old(self)@),
            ));
        }
        (name, scoped_addr)
    }

    /// Registers a host on every network and returns its addresses, one for each: the first
    /// of the fixed ones that lies in the network, or else a fresh one.
    pub fn register(&mut self, name: &[u8], static_addrs: &Vec<IpAddr>) -> (r: Vec<IpAddr>)
        requires
            old(self).wf(),
        ensures
            final(self).wf(),
            final(self)@ == old(self)@.registered(name@, static_addrs@),
            r@.len() == old(self)@.subnets.len(),
            forall|i: int|
                0 <= i < r@.len() ==> #[trigger] r@[i] == old(self)@.bound_addr(static_addrs@, i),
            forall|i: int|
                0 <= i < r@.len() ==> old(self)@.subnets[i].holds(#[trigger] r@[i]),
    {
        let n: usize = self.subnets.len();
        let ghost view = self@;
        let ghost before = self.mapping@;
        let mut bound: Vec<IpAddr> = Vec::new();
        let mut held: Vec<IpAddr> = Vec::new();
        let mut i: usize = 0;
        while i < n
            invariant
                view == old(self)@,
                view.wf(),
                n == view.subnets.len(),
                i <= n,
                self.subnets@ == view.subnets,
                self.addrs == view.addrs,
                self.mapping@ == before,
                self.counters@.len() == n,
                bound@.len() == i,
                held@ == bound@,
                forall|k: int|
                    0 <= k < i ==> #[trigger] bound@[k] == view.bound_addr(static_addrs@, k)
                        && view.subnets[k].holds(bound@[k]),
                forall|k: int|
                    0 <= k < n ==> #[trigger] self.counters@[k] == (if k >= i || first_in(
                        view.subnets[k],
                        static_addrs@,
                        0,
                    ) < static_addrs@.len() {
                        view.counters[k]
                    } else {
                        next_count(view.counters[k])
                    }),
            decreases n - i,
        {
            let subnet = self.subnets.at(i);
            let mut j: usize = 0;
            proof {
                lemma_first_in(subnet, static_addrs@, 0);
                assert(view.subnets[i as int] == subnet);
                assert(self.counters@[i as int] == view.counters[i as int]);
            }
            while j < static_addrs.len() && !subnet.contains(static_addrs[j])
                invariant
                    j <= static_addrs@.len(),
                    subnet.wf(),
                    first_in(subnet, static_addrs@, 0) == first_in(subnet, static_addrs@, j as int),
                decreases static_addrs.len() - j,
            {
                j = j + 1;
            }
            let ghost counters = self.counters@;
            let item = if j < static_addrs.len() {
                static_addrs[j]
            } else {
                let raw: u128 = self.counters[i];
                if raw == u128::MAX {
                    self.counters.set(i, 0);
                } else {
                    self.counters.set(i, raw + 1);
                }
                subnet.addr_from_entropy(raw)
            };
            assert(item == view.bound_addr(static_addrs@, i as int));
            bound.push(item);
            held.push(item);
            i = i + 1;
        }
        let ghost value = NodeInfo { addrs: held };
        let key = slice_to_vec(name);
        let _ = self.mapping.insert(key, NodeInfo { addrs: held });
        proof {
            lemma_addresses(before, name@, value);
            addresses(before).lemma_with(name@, value.addrs@);
            assert(value.addrs@ =~= Seq::new(
                view.subnets.len(),
                |i: int| view.bound_addr(static_addrs@, i),
            ));
            assert(self@.counters =~= view.registered(name@, static_addrs@).counters);
            assert(self@ =~= view.registered(name@, static_addrs@));
        }
        bound
    }

    /// The address that is asked for.
    pub fn lookup<T: ToIpAddr>(&self, addr: &T) -> (r: IpAddr)
        requires
            self.wf(),
            addr.resolved(self@) is Some,
        ensures
            r == addr.resolved(self@)->0,
    {
        addr.to_ip_addr(self).unwrap()
    }

    /// The addresses that are asked for.
    pub fn lookup_many<T: ToIpAddrs>(&self, addrs: &T) -> (r: Vec<IpAddr>)
        requires
            self.wf(),
        ensures
            r@ == addrs.resolved_all(self@),
    {
        addrs.to_ip_addrs(self)
    }

    /// The first name, in the order of registration, that has the address.
    pub fn reverse(&self, addr: IpAddr) -> (r: Option<Vec<u8>>)
        requires
            self.wf(),
        ensures
            match r {
                Some(name) => self@.first_named(addr, 0) < self@.names.order.len() && name@
                    == self@.names.order[self@.first_named(addr, 0)],
                None => self@.first_named(addr, 0) == self@.names.order.len(),
            },
    {
        let n: usize = self.mapping.len();
        let mut i: usize = 0;
        while i < n
            invariant
                i <= n,
                n == self@.names.order.len(),
                self.wf(),
                self@.first_named(addr, 0) == self@.first_named(addr, i as int),
            decreases n - i,
        {
            proof {
                self@.names.lemma_nth(i as int);
            }
            match self.mapping.get_index(i) {
                Some(entry) => {
                    if has_addr(&entry.1.addrs, addr) {
                        return Some(bytes_copy(entry.0));
                    }
                },
                None => {},
            }
            i = i + 1;
        }
        None
    }

    /// The names, in the order of registration.
    pub fn names(&self) -> (r: Vec<Vec<u8>>)
        requires
            self.wf(),
        ensures
            r@.len() == self@.names.order.len(),
            forall|i: int| 0 <= i < r@.len() ==> #[trigger] r@[i]@ == self@.names.order[i],
    {
        let n: usize = self.mapping.len();
        let mut out: Vec<Vec<u8>> = Vec::new();
        let mut i: usize = 0;
        while i < n
            invariant
                i <= n,
                n == self@.names.order.len(),
                out@.len() == i,
                forall|k: int| 0 <= k < i ==> #[trigger] out@[k]@ == self@.names.order[k],
            decreases n - i,
        {
            match self.mapping.get_index(i) {
                Some(entry) => {
                    out.push(bytes_copy(entry.0));
                },
                None => {},
            }
            i = i + 1;
        }
        out
    }

    /// The addresses of the names that are hit, in the order of registration.
    pub fn addrs_of(&self, hits: &Vec<bool>) -> (r: Vec<IpAddr>)
        requires
            self.wf(),
            hits@.len() == self@.names.order.len(),
        ensures
            r@ == self@.hit_addrs(hits@, hits@.len() as int),
    {
        let mut out: Vec<IpAddr> = Vec::new();
        let mut i: usize = 0;
        while i < hits.len()
            invariant
                i <= hits@.len(),
                self.wf(),
                hits@.len() == self@.names.order.len(),
                out@ == self@.hit_addrs(hits@, i as int),
            decreases hits.len() - i,
        {
            if hits[i] {
                proof {
                    self@.names.lemma_nth(i as int);
                }
                match self.mapping.get_index(i) {
                    Some(entry) => {
                        match self.resolve(entry.0) {
                            Some(a) => {
                                out.push(a);
                            },
                            None => {},
                        }
                    },
                    None => {},
                }
            }
            i = i + 1;
        }
        out
    }

    /// The address that a text stands for.
    pub fn resolve(&self, name: &[u8]) -> (r: Option<IpAddr>)
        requires
            self.wf(),
        ensures
            r == self@.resolved(name@),
    {
        match text::parse_ip(name) {
            Some(a) => Some(a),
            None => match self.mapping.get(name) {
                Some(info) => if info.addrs.len() > 0 {
                    Some(info.addrs[0])
                } else {
                    None
                },
                None => None,
            },
        }
    }

    /// The socket address that a host and a port stand for.
    pub fn resolve_socket(&self, host: &[u8], port: u16) -> (r: Result<SocketAddr, Error>)
        requires
            self.wf(),
        ensures
            r == self@.socket(host@, port),
    {
        match self.resolve(host) {
            Some(ip) => Ok(SocketAddr { ip, port }),
            None => Err(Error::not_found(Cause::HostNotFound)),
        }
    }

    /// The socket address that a text stands for.
    pub fn resolve_socket_text(&self, t: &[u8]) -> (r: Result<SocketAddr, Error>)
        requires
            self.wf(),
        ensures
            r == self@.socket_text(t@),
    {
        match text::parse_socket_addr(t) {
            Some(a) => Ok(a),
            None => match text::find_last_of(t, COLON) {
                None => Err(Error::new(ErrorKind::InvalidInput, Cause::InvalidSocketAddress)),
                Some(k) => {
                    let len: usize = t.len();
                    proof {
                        assert(t@.take(k as int) =~= t@.subrange(0, k as int));
                        assert(t@.skip(k + 1) =~= t@.subrange(k + 1, t@.len() as int));
                    }
                    match text::parse_unsigned(slice_subrange(t, k + 1, len), 0xffff) {
                        None => Err(Error::new(ErrorKind::InvalidInput, Cause::InvalidPort)),
                        Some(port) => self.resolve_socket(slice_subrange(t, 0, k), port as u16),
                    }
                },
            },
        }
    }
}

fn has_addr(addrs: &Vec<IpAddr>, addr: IpAddr) -> (r: bool)
    ensures
        r == addrs@.contains(addr),
{
    let mut i: usize = 0;
    while i < addrs.len()
        invariant
            i <= addrs@.len(),
            forall|k: int| 0 <= k < i ==> addrs@[k] != addr,
        decreases addrs.len() - i,
    {
        if addrs[i] == addr {
            return true;
        }
        i = i + 1;
    }
    false
}

/// What the library alone implements its conversions for.
pub trait Sealed {

}

impl<T: ?Sized> Sealed for T {

}

/// What stands for an address of a host.
pub trait ToIpAddr: Sealed {
    /// The address that it stands for.
    spec fn resolved(&self, dns: DnsView) -> Option<IpAddr>;

    /// The name of a host that is registered by it.
    spec fn name_text(&self) -> Seq<u8>;

    /// The address that it stands for.
    fn to_ip_addr(&self, dns: &Dns) -> (r: Option<IpAddr>)
        requires
            dns.wf(),
        ensures
            r == self.resolved(dns@),
    ;

    /// The name of a host that is registered by it.
    fn to_name(&self) -> (r: Vec<u8>)
        ensures
            r@ == self.name_text(),
    ;
}

impl ToIpAddr for Vec<u8> {
    open spec fn resolved(&self, dns: DnsView) -> Option<IpAddr> {
        dns.resolved(self@)
    }

    open spec fn name_text(&self) -> Seq<u8> {
        self@
    }

    fn to_ip_addr(&self, dns: &Dns) -> (r: Option<IpAddr>) {
        dns.resolve(self)
    }

    fn to_name(&self) -> (r: Vec<u8>) {
        bytes_copy(self)
    }
}

impl ToIpAddr for IpAddr {
    open spec fn resolved(&self, dns: DnsView) -> Option<IpAddr> {
        Some(*self)
    }

    open spec fn name_text(&self) -> Seq<u8> {
        text::text_ip(*self)
    }

    fn to_ip_addr(&self, dns: &Dns) -> (r: Option<IpAddr>) {
        Some(*self)
    }

    fn to_name(&self) -> (r: Vec<u8>) {
        text::ip_text(*self)
    }
}

impl ToIpAddr for Ipv4Addr {
    open spec fn resolved(&self, dns: DnsView) -> Option<IpAddr> {
        Some(IpAddr::V4(*self))
    }

    open spec fn name_text(&self) -> Seq<u8> {
        text::text_v4(*self)
    }

    fn to_ip_addr(&self, dns: &Dns) -> (r: Option<IpAddr>) {
        Some(IpAddr::V4(*self))
    }

    fn to_name(&self) -> (r: Vec<u8>) {
        text::ip_text(IpAddr::V4(*self))
    }
}

impl ToIpAddr for Ipv6Addr {
    open spec fn resolved(&self, dns: DnsView) -> Option<IpAddr> {
        Some(IpAddr::V6(*self))
    }

    open spec fn name_text(&self) -> Seq<u8> {
        text::text_v6(*self)
    }

    fn to_ip_addr(&self, dns: &Dns) -> (r: Option<IpAddr>) {
        Some(IpAddr::V6(*self))
    }

    fn to_name(&self) -> (r: Vec<u8>) {
        text::ip_text(IpAddr::V6(*self))
    }
}

/// What stands for any number of addresses.
pub trait ToIpAddrs: Sealed {
    /// The addresses that it stands for.
    spec fn resolved_all(&self, dns: DnsView) -> Seq<IpAddr>;

    /// The addresses that it stands for.
    fn to_ip_addrs(&self, dns: &Dns) -> (r: Vec<IpAddr>)
        requires
            dns.wf(),
        ensures
            r@ == self.resolved_all(dns@),
    ;
}

impl<T: ToIpAddr> ToIpAddrs for T {
    open spec fn resolved_all(&self, dns: DnsView) -> Seq<IpAddr> {
        match self.resolved(dns) {
            Some(a) => seq![a],
            None => Seq::empty(),
        }
    }

    fn to_ip_addrs(&self, dns: &Dns) -> (r: Vec<IpAddr>) {
        let mut out: Vec<IpAddr> = Vec::new();
        match self.to_ip_addr(dns) {
            Some(a) => {
                out.push(a);
            },
            None => {},
        }
        assert(out@ =~= self.resolved_all(dns@));
        out
    }
}

/// For each name whether the pattern matches it.
pub open spec fn hits(p: Seq<char>, names: Seq<Seq<u8>>) -> Seq<bool> {
    names.map_values(|n: Seq<u8>| pattern::name_matches(p, n))
}

impl ToIpAddrs for Pattern {
    open spec fn resolved_all(&self, dns: DnsView) -> Seq<IpAddr> {
        dns.hit_addrs(hits(self@, dns.names.order), dns.names.order.len() as int)
    }

    fn to_ip_addrs(&self, dns: &Dns) -> (r: Vec<IpAddr>) {
        let names = dns.names();
        let mut found: Vec<bool> = Vec::new();
        let mut i: usize = 0;
        while i < names.len()
            invariant
                i <= names@.len(),
                names@.len() == dns@.names.order.len(),
                forall|k: int| 0 <= k < names@.len() ==> #[trigger] names@[k]@ == dns@.names.order[k],
                found@.len() == i,
                forall|k: int|
                    0 <= k < i ==> #[trigger] found@[k] == pattern::name_matches(
                        self@,
                        dns@.names.order[k],
                    ),
            decreases names.len() - i,
        {
            let hit = self.matches_name(&names[i]);
            assert(names@[i as int]@ == dns@.names.order[i as int]);
            found.push(hit);
            i = i + 1;
        }
        assert(found@ =~= hits(self@, dns@.names.order));
        dns.addrs_of(&found)
    }
}

/// What stands for an address of a socket.
pub trait ToSocketAddrs: Sealed {
    /// The address that it stands for.
    spec fn resolved_socket(&self, dns: DnsView) -> Result<SocketAddr, Error>;

    /// The address that it stands for.
    fn to_socket_addr(&self, dns: &Dns) -> (r: Result<SocketAddr, Error>)
        requires
            dns.wf(),
        ensures
            r == self.resolved_socket(dns@),
    ;
}

impl ToSocketAddrs for (Vec<u8>, u16) {
    open spec fn resolved_socket(&self, dns: DnsView) -> Result<SocketAddr, Error> {
        dns.socket(self.0@, self.1)
    }

    fn to_socket_addr(&self, dns: &Dns) -> (r: Result<SocketAddr, Error>) {
        dns.resolve_socket(&self.0, self.1)
    }
}

impl ToSocketAddrs for Vec<u8> {
    open spec fn resolved_socket(&self, dns: DnsView) -> Result<SocketAddr, Error> {
        dns.socket_text(self@)
    }

    fn to_socket_addr(&self, dns: &Dns) -> (r: Result<SocketAddr, Error>) {
        dns.resolve_socket_text(self)
    }
}

impl ToSocketAddrs for SocketAddr {
    open spec fn resolved_socket(&self, dns: DnsView) -> Result<SocketAddr, Error> {
        Ok(*self)
    }

    fn to_socket_addr(&self, dns: &Dns) -> (r: Result<SocketAddr, Error>) {
        Ok(*self)
    }
}

impl ToSocketAddrs for (IpAddr, u16) {
    open spec fn resolved_socket(&self, dns: DnsView) -> Result<SocketAddr, Error> {
        Ok(SocketAddr { ip: self.0, port: self.1 })
    }

    fn to_socket_addr(&self, dns: &Dns) -> (r: Result<SocketAddr, Error>) {
        Ok(SocketAddr::new(self.0, self.1))
    }
}

impl ToSocketAddrs for (Ipv4Addr, u16) {
    open spec fn resolved_socket(&self, dns: DnsView) -> Result<SocketAddr, Error> {
        Ok(SocketAddr { ip: IpAddr::V4(self.0), port: self.1 })
    }

    fn to_socket_addr(&self, dns: &Dns) -> (r: Result<SocketAddr, Error>) {
        Ok(SocketAddr::new(IpAddr::V4(self.0), self.1))
    }
}

impl ToSocketAddrs for (Ipv6Addr, u16) {
    open spec fn resolved_socket(&self, dns: DnsView) -> Result<SocketAddr, Error> {
        Ok(SocketAddr { ip: IpAddr::V6(self.0), port: self.1 })
    }

    fn to_socket_addr(&self, dns: &Dns) -> (r: Result<SocketAddr, Error>) {
        Ok(SocketAddr::new(IpAddr::V6(self.0), self.1))
    }
}

/// A name that does not itself write an address stands, once registered, for the host's
/// address in the first network, and every other text stands for what it stood for.
pub proof fn law_registered_name_resolves(
    dns: DnsView,
    name: Seq<u8>,
    fixed: Seq<IpAddr>,
    other: Seq<u8>,
)
    requires
        dns.wf(),
        dns.subnets.len() > 0,
        text::parsed_ip(name) is None,
    ensures
        dns.registered(name, fixed).resolved(name) == Some(dns.bound_addr(fixed, 0)),
        dns.subnets[0].wf() && dns.subnets[0].holds(dns.bound_addr(fixed, 0)),
        other != name ==> dns.registered(name, fixed).resolved(other) == dns.resolved(other),
{
    lemma_first_in(dns.subnets[0], fixed, 0);
    lemma_member_is_held(dns.subnets[0], dns.counters[0]);
}

proof fn lemma_member_is_held(subnet: IpSubnet, n: u128)
    requires
        subnet.wf(),
    ensures
        subnet.holds(subnet.member(n)),
{
    match subnet {
        IpSubnet::V4(v4) => {
            let e = (n % 0x1_0000_0000) as u32;
            let m = v4.mask_bits();
            let p = v4.prefix_bits();
            assert(((e & !m) | p) & m == p) by (bit_vector)
                requires
                    p & m == p,
            ;
        },
        IpSubnet::V6(v6) => {
            let m = v6.mask_bits();
            let p = v6.prefix_bits();
            assert(((n & !m) | p) & m == p) by (bit_vector)
                requires
                    p & m == p,
            ;
        },
    }
}

/// A text that writes an address stands for that address, alone and with a port, whatever
/// names are registered.
pub proof fn law_raw_address_is_itself(dns: DnsView, t: Seq<u8>, port: u16)
    requires
        text::parsed_ip(t) is Some,
    ensures
        dns.resolved(t) == text::parsed_ip(t),
        dns.socket(t, port) == Ok::<SocketAddr, Error>(
            SocketAddr { ip: text::parsed_ip(t)->0, port },
        ),
{
}

/// The first name that has an address is found by it: the reverse of a lookup.
pub proof fn law_reverse_lookup(dns: DnsView, i: int, a: IpAddr)
    requires
        dns.wf(),
        0 <= i < dns.names.order.len(),
        dns.names.nth(i).contains(a),
        forall|j: int| 0 <= j < i ==> !(#[trigger] dns.names.nth(j)).contains(a),
    ensures
        dns.first_named(a, 0) == i,
{
    lemma_first_named(dns, i, a, 0);
}

proof fn lemma_first_named(dns: DnsView, i: int, a: IpAddr, k: int)
    requires
        0 <= k <= i < dns.names.order.len(),
        dns.names.nth(i).contains(a),
        forall|j: int| 0 <= j < i ==> !(#[trigger] dns.names.nth(j)).contains(a),
    ensures
        dns.first_named(a, k) == i,
    decreases i - k,
{
    if k < i {
        assert(!dns.names.nth(k).contains(a));
        lemma_first_named(dns, i, a, k + 1);
    }
}

/// Two hosts registered one after the other without fixed addresses have different
/// addresses in each network whose numbers are not used up.
pub proof fn law_fresh_addresses_differ(dns: DnsView, a: Seq<u8>, i: int)
    requires
        dns.wf(),
        0 <= i < dns.subnets.len(),
        ip::fits_below(dns.subnets[i], dns.counters[i]),
        ip::fits_below(dns.subnets[i], next_count(dns.counters[i])),
    ensures
        dns.bound_addr(Seq::empty(), i) != dns.registered(a, Seq::empty()).bound_addr(
            Seq::empty(),
            i,
        ),
{
    ip::law_members_differ(dns.subnets[i], dns.counters[i], next_count(dns.counters[i]));
}

} // verus!
