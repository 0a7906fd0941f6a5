//! Hosts of the simulated network.
use crate::addr::{IpAddr, Key, SocketAddr};
use crate::envelope::{Datagram, Envelope, Packet, Protocol, Segment};
use crate::error::{Cause, Error, ErrorKind};
use crate::kernel::{Tcp, TcpView};
use crate::ordered;
use crate::ordered::{number_key, Entries, KeyMap};
use crate::time::Duration;
use std::collections::VecDeque;
use vstd::prelude::*;

verus! {

/// The first port that a host hands out by default.
pub const FIRST_EPHEMERAL_PORT: u16 = 49152;

/// The last port that a host hands out by default.
pub const LAST_EPHEMERAL_PORT: u16 = 65535;

/// The ports that a host hands out.
#[derive(Clone, Copy, Debug, PartialEq, Eq, Structural)]
pub struct PortRange {
    /// The first of them.
    pub first: u16,
    /// The last of them.
    pub last: u16,
}

impl PortRange {
    /// Whether the port is one of them.
    pub open spec fn has(self, port: u16) -> bool {
        self.first <= port <= self.last
    }

    /// The port that follows. The last one is followed by the first.
    pub open spec fn after(self, port: u16) -> u16 {
        if port == self.last {
            self.first
        } else {
            (port + 1) as u16
        }
    }

    /// The port that follows so many ports later.
    pub open spec fn after_by(self, port: u16, n: nat) -> u16
        decreases n,
    {
        if n == 0 {
            port
        } else {
            self.after(self.after_by(port, (n - 1) as nat))
        }
    }
}

struct UdpBind {
    bind_addr: SocketAddr,
    queue: VecDeque<(Datagram, SocketAddr)>,
    broadcast: bool,
    multicast_loop: bool,
}

/// The datagram sockets of a host.
pub struct Udp {
    binds: KeyMap<UdpBind>,
    capacity: usize,
}

/// A datagram socket.
#[verifier::ext_equal]
pub struct UdpBindView {
    /// The address that it is bound to.
    pub addr: SocketAddr,
    /// The datagrams that have arrived, each with its origin, the oldest first.
    pub queue: Seq<(Seq<u8>, SocketAddr)>,
    /// Whether it may send to all hosts.
    pub broadcast: bool,
    /// Whether what it sends to a group comes back to its own host.
    pub multicast_loop: bool,
}

/// The datagram sockets of a host.
#[verifier::ext_equal]
pub struct UdpView {
    /// The socket on each port that has one.
    pub binds: Map<u16, UdpBindView>,
    /// How many datagrams a socket keeps.
    pub capacity: usize,
}

/// The key of a port.
pub open spec fn port_key() -> spec_fn(u16) -> Key {
    |port: u16| number_key(port as u64)
}

spec fn shown_queue(q: Seq<(Datagram, SocketAddr)>) -> Seq<(Seq<u8>, SocketAddr)> {
    q.map_values(|e: (Datagram, SocketAddr)| (e.0.0@, e.1))
}

impl UdpBind {
    spec fn shown(self) -> UdpBindView {
        UdpBindView {
            addr: self.bind_addr,
            queue: shown_queue(self.queue@),
            broadcast: self.broadcast,
            multicast_loop: self.multicast_loop,
        }
    }
}

spec fn shown_binds(e: Entries<Key, UdpBind>) -> Map<u16, UdpBindView> {
    ordered::rekeyed(e, port_key()).map_values(|b: UdpBind| b.shown())
}

proof fn lemma_shown_with(e: Entries<Key, UdpBind>, port: u16, b: UdpBind)
    ensures
        shown_binds(e.with(number_key(port as u64), b)) == shown_binds(e).insert(port, b.shown()),
{
    assert(ordered::is_faithful(port_key()));
    ordered::lemma_rekeyed_with(e, port_key(), port, b);
    assert(port_key()(port) == number_key(port as u64));
    assert(shown_binds(e.with(number_key(port as u64), b)) =~= shown_binds(e).insert(port, b.shown()));
}

proof fn lemma_shown_without(e: Entries<Key, UdpBind>, port: u16)
    ensures
        shown_binds(e.swapped_out(number_key(port as u64))) == shown_binds(e).remove(port),
{
    assert(ordered::is_faithful(port_key()));
    ordered::lemma_rekeyed_without(e, port_key(), port);
    assert(port_key()(port) == number_key(port as u64));
    assert(shown_binds(e.swapped_out(number_key(port as u64))) =~= shown_binds(e).remove(port));
}

impl View for Udp {
    type V = UdpView;

    closed spec fn view(&self) -> UdpView {
        UdpView { binds: shown_binds(self.binds@), capacity: self.capacity }
    }
}

/// Whether a socket bound to the one address takes what is sent to the other: one that is
/// bound to every address takes what comes to its port.
pub open spec fn accepts(bind: SocketAddr, dst: SocketAddr) -> bool {
    (bind.ip.unspecified() && bind.port == dst.port) || bind == dst
}

/// Whether a socket bound to the one address takes what is sent to the other.
pub fn matches(bind: SocketAddr, dst: SocketAddr) -> (r: bool)
    ensures
        r == accepts(bind, dst),
{
    if bind.ip.is_unspecified() && bind.port == dst.port {
        return true;
    }
    bind == dst
}

/// Whether what is sent from the one address to the other stays within the host.
pub open spec fn stays_within(src: SocketAddr, dst: SocketAddr) -> bool {
    dst.ip.loopback() || src.ip == dst.ip
}

/// Whether what is sent from the one address to the other stays within the host.
pub fn is_same(src: SocketAddr, dst: SocketAddr) -> (r: bool)
    ensures
        r == stays_within(src, dst),
{
    dst.ip.is_loopback() || src.ip == dst.ip
}

impl UdpView {
    /// The sockets with a further one.
    pub open spec fn bound(self, addr: SocketAddr) -> UdpView {
        UdpView {
            binds: self.binds.insert(
                addr.port,
                UdpBindView {
                    addr,
                    queue: Seq::empty(),
                    broadcast: false,
                    multicast_loop: true,
                },
            ),
            ..self
        }
    }

    /// Whether a socket takes the datagrams that come to the address, and has room.
    pub open spec fn takes(self, dst: SocketAddr) -> bool {
        &&& self.binds.contains_key(dst.port)
        &&& accepts(self.binds[dst.port].addr, dst)
        &&& self.binds[dst.port].queue.len() < self.capacity
    }

    /// The sockets once a datagram has come in. One that no socket takes, or that the
    /// socket has no room for, is dropped.
    pub open spec fn received(self, src: SocketAddr, dst: SocketAddr, data: Seq<u8>) -> UdpView {
        if self.takes(dst) {
            let bind = self.binds[dst.port];
            UdpView {
                binds: self.binds.insert(
                    dst.port,
                    UdpBindView { queue: bind.queue.push((data, src)), ..bind },
                ),
                ..self
            }
        } else {
            self
        }
    }
}

impl Udp {
    /// Whether the collection is well formed.
    pub closed spec fn wf(&self) -> bool {
        self.binds@.wf()
    }

    /// No socket.
    pub fn new(capacity: usize) -> (r: Self)
        ensures
            r.wf(),
            r@ == (UdpView { binds: Map::empty(), capacity }),
    {
        let r = Udp { binds: KeyMap::new(), capacity };
        assert(r@.binds =~= Map::empty());
        r
    }

    /// Whether a socket is bound to the port.
    pub fn is_port_assigned(&self, port: u16) -> (r: bool)
        ensures
            r == self@.binds.contains_key(port),
    {
        assert(port_key()(port) == number_key(port as u64));
        self.binds.get(number_key(port as u64)).is_some()
    }

    /// Binds a socket to the address, unless one is bound to the port already.
    pub fn bind(&mut self, addr: SocketAddr) -> (r: Result<SocketAddr, Error>)
        requires
            old(self).wf(),
        ensures
            final(self).wf(),
            if old(self)@.binds.contains_key(addr.port) {
                &&& r == Err::<SocketAddr, Error>(
                    Error { kind: ErrorKind::AddrInUse, cause: Cause::AddressInUse(addr) },
                )
                &&& final(self)@ == old(self)@
            } else {
                &&& r == Ok::<SocketAddr, Error>(addr)
                &&& final(self)@ == old(self)@.bound(addr)
            },
    {
        if self.is_port_assigned(addr.port) {
            return Err(Error::new(ErrorKind::AddrInUse, Cause::AddressInUse(addr)));
        }
        let bind = UdpBind {
            bind_addr: addr,
            queue: VecDeque::new(),
            broadcast: false,
            multicast_loop: true,
        };
        let ghost value = bind;
        let ghost before = self.binds@;
        let key = number_key(addr.port as u64);
        let _ = self.binds.insert(key, bind);
        proof {
            before.lemma_with(key, value);
            lemma_shown_with(before, addr.port, value);
            assert(value.shown().queue =~= Seq::empty());
            assert(self@ =~= old(self)@.bound(addr));
        }
        Ok(addr)
    }

    /// Takes in a datagram.
    pub fn receive_from_network(&mut self, src: SocketAddr, dst: SocketAddr, datagram: Datagram)
        requires
            old(self).wf(),
        ensures
            final(self).wf(),
            final(self)@ == old(self)@.received(src, dst, datagram.0@),
    {
        let key = number_key(dst.port as u64);
        let ghost before = self.binds@;
        let capacity: usize = self.capacity;
        let ghost data = datagram.0@;
        assert(port_key()(dst.port) == key);
        match self.binds.get_mut(key) {
            Some(bind) => {
                let ghost start = bind.shown();
                if matches(bind.bind_addr, dst) && bind.queue.len() < capacity {
                    let ghost queue = bind.queue@;
                    bind.queue.push_back((datagram, src));
                    proof {
                        assert(shown_queue(bind.queue@) =~= shown_queue(queue).push((data, src)));
                    }
                }
                let ghost changed = *bind;
                proof {
                    before.lemma_with(key, changed);
                    lemma_shown_with(before, dst.port, changed);
                }
                assert(self@ =~= old(self)@.received(src, dst, data));
            },
            None => {},
        }
    }

    /// Takes the oldest datagram that has arrived on the port.
    pub fn take(&mut self, port: u16) -> (r: Option<(Datagram, SocketAddr)>)
        requires
            old(self).wf(),
        ensures
            final(self).wf(),
            if old(self)@.binds.contains_key(port) && old(self)@.binds[port].queue.len() > 0 {
                let bind = old(self)@.binds[port];
                &&& r matches Some(e)
                &&& (e.0.0@, e.1) == bind.queue[0]
                &&& final(self)@ == (UdpView {
                    binds: old(self)@.binds.insert(
                        port,
                        UdpBindView { queue: bind.queue.skip(1), ..bind },
                    ),
                    ..old(self)@
                })
            } else {
                r is None && final(self)@ == old(self)@
            },
    {
        let key = number_key(port as u64);
        let ghost before = self.binds@;
        assert(port_key()(port) == key);
        match self.binds.get_mut(key) {
            Some(bind) => {
                let ghost queue = bind.queue@;
                let r = bind.queue.pop_front();
                let ghost changed = *bind;
                proof {
                    before.lemma_with(key, changed);
                    lemma_shown_with(before, port, changed);
                    if queue.len() > 0 {
                        assert(shown_queue(changed.queue@) =~= shown_queue(queue).skip(1));
                    } else {
                        assert(shown_queue(changed.queue@) =~= shown_queue(queue));
                    }
                }
                assert(self@.binds =~= old(self)@.binds.insert(port, changed.shown()));
                assert(queue.len() == 0 ==> self@ =~= old(self)@);
                r
            },
            None => None,
        }
    }

    /// Unbinds the socket on the port of the address.
    pub fn unbind(&mut self, addr: SocketAddr)
        requires
            old(self).wf(),
            old(self)@.binds.contains_key(addr.port),
        ensures
            final(self).wf(),
            final(self)@ == (UdpView { binds: old(self)@.binds.remove(addr.port), ..old(self)@ }),
    {
        let key = number_key(addr.port as u64);
        let ghost before = self.binds@;
        let _ = self.binds.swap_remove(key);
        proof {
            before.lemma_swapped_out(key);
            lemma_shown_without(before, addr.port);
        }
    }

    /// Whether the socket on the port may send to all hosts.
    pub fn is_broadcast_enabled(&self, port: u16) -> (r: bool)
        ensures
            r == (self@.binds.contains_key(port) && self@.binds[port].broadcast),
    {
        assert(port_key()(port) == number_key(port as u64));
        match self.binds.get(number_key(port as u64)) {
            Some(bind) => bind.broadcast,
            None => false,
        }
    }

    /// Sets whether the socket on the port may send to all hosts.
    pub fn set_broadcast(&mut self, port: u16, on: bool)
        requires
            old(self).wf(),
        ensures
            final(self).wf(),
            final(self)@ == (if old(self)@.binds.contains_key(port) {
                UdpView {
                    binds: old(self)@.binds.insert(
                        port,
                        UdpBindView { broadcast: on, ..old(self)@.binds[port] },
                    ),
                    ..old(self)@
                }
            } else {
                old(self)@
            }),
    {
        let key = number_key(port as u64);
        let ghost before = self.binds@;
        assert(port_key()(port) == key);
        match self.binds.get_mut(key) {
            Some(bind) => {
                bind.broadcast = on;
                let ghost changed = *bind;
                proof {
                    before.lemma_with(key, changed);
                    lemma_shown_with(before, port, changed);
                }
            },
            None => {},
        }
    }

    /// Whether what the socket on the port sends to a group comes back to its own host.
    pub fn is_multicast_loop_enabled(&self, port: u16) -> (r: bool)
        ensures
            r == (self@.binds.contains_key(port) && self@.binds[port].multicast_loop),
    {
        assert(port_key()(port) == number_key(port as u64));
        match self.binds.get(number_key(port as u64)) {
            Some(bind) => bind.multicast_loop,
            None => false,
        }
    }

    /// Sets whether what the socket on the port sends to a group comes back to its own
    /// host.
    pub fn set_multicast_loop(&mut self, port: u16, on: bool)
        requires
            old(self).wf(),
        ensures
            final(self).wf(),
            final(self)@ == (if old(self)@.binds.contains_key(port) {
                UdpView {
                    binds: old(self)@.binds.insert(
                        port,
                        UdpBindView { multicast_loop: on, ..old(self)@.binds[port] },
                    ),
                    ..old(self)@
                }
            } else {
                old(self)@
            }),
    {
        let key = number_key(port as u64);
        let ghost before = self.binds@;
        assert(port_key()(port) == key);
        match self.binds.get_mut(key) {
            Some(bind) => {
                bind.multicast_loop = on;
                let ghost changed = *bind;
                proof {
                    before.lemma_with(key, changed);
                    lemma_shown_with(before, port, changed);
                }
            },
            None => {},
        }
    }
}

/// How long a host has been running.
#[derive(Clone, Copy, Debug, PartialEq, Eq, Structural)]
pub struct HostTimer {
    /// How long the host ran in the steps before this one.
    pub elapsed: Duration,
    /// The reading of the host's clock at the start of this step, once it has run.
    pub now: Option<Duration>,
    /// How long the simulation had been running when the host came.
    pub start_offset: Duration,
    /// The time from the epoch to the start of the simulation.
    pub epoch: Duration,
}

impl HostTimer {
    /// How long the host has been running where its clock reads so.
    pub open spec fn elapsed_at(self, clock: Duration) -> int {
        let start = self.now->0.nanos;
        self.elapsed.nanos + (if clock.nanos > start {
            clock.nanos - start
        } else {
            0
        })
    }

    /// A timer that has not run.
    pub open spec fn fresh(start_offset: Duration, epoch: Duration) -> HostTimer {
        HostTimer { elapsed: Duration { nanos: 0 }, now: None, start_offset, epoch }
    }

    /// A timer that has not run.
    pub fn new(start_offset: Duration, epoch: Duration) -> (r: HostTimer)
        ensures
            r == HostTimer::fresh(start_offset, epoch),
    {
        HostTimer { elapsed: Duration::zero(), now: None, start_offset, epoch }
    }

    /// Notes the reading of the host's clock at the start of a step.
    pub fn now(&mut self, now: Duration)
        ensures
            *final(self) == (HostTimer { now: Some(now), ..*old(self) }),
    {
        self.now = Some(now);
    }

    /// How long the host has been running.
    pub fn elapsed(&self, clock: Duration) -> (r: Duration)
        requires
            self.now is Some,
            self.elapsed_at(clock) <= u128::MAX,
        ensures
            r.nanos == self.elapsed_at(clock),
    {
        self.elapsed.plus(clock.saturating_sub(self.now.unwrap()))
    }

    /// How long the simulation has been running.
    pub fn sim_elapsed(&self, clock: Duration) -> (r: Duration)
        requires
            self.now is Some,
            self.elapsed_at(clock) + self.start_offset.nanos <= u128::MAX,
        ensures
            r.nanos == self.elapsed_at(clock) + self.start_offset.nanos,
    {
        self.elapsed(clock).plus(self.start_offset)
    }

    /// The time from the epoch until now.
    pub fn since_epoch(&self, clock: Duration) -> (r: Duration)
        requires
            self.now is Some,
            self.elapsed_at(clock) + self.start_offset.nanos + self.epoch.nanos <= u128::MAX,
        ensures
            r.nanos == self.elapsed_at(clock) + self.start_offset.nanos + self.epoch.nanos,
    {
        self.sim_elapsed(clock).plus(self.epoch)
    }

    /// Adds a step.
    pub fn tick(&mut self, duration: Duration)
        requires
            old(self).elapsed.nanos + duration.nanos <= u128::MAX,
        ensures
            *final(self) == (HostTimer {
                elapsed: Duration { nanos: (old(self).elapsed.nanos + duration.nanos) as u128 },
                ..*old(self)
            }),
    {
        self.elapsed = self.elapsed.plus(duration);
    }
}

/// A host.
pub struct Host {
    /// Its address.
    pub addr: IpAddr,
    /// Its datagram sockets.
    pub udp: Udp,
    /// Its connections.
    pub tcp: Tcp,
    /// Its time.
    pub timer: HostTimer,
    /// The port that it tries next.
    pub next_ephemeral_port: u16,
    /// The ports that it hands out.
    pub ports: PortRange,
    /// The address of the first request for a connection that found no room.
    pub overflow: Option<SocketAddr>,
}

/// A host.
#[verifier::ext_equal]
pub struct HostView {
    /// Its address.
    pub addr: IpAddr,
    /// Its datagram sockets.
    pub udp: UdpView,
    /// Its connections.
    pub tcp: TcpView,
    /// Its time.
    pub timer: HostTimer,
    /// The port that it tries next.
    pub next_port: u16,
    /// The ports that it hands out.
    pub ports: PortRange,
    /// The address of the first request for a connection that found no room.
    pub overflow: Option<SocketAddr>,
}

impl View for Host {
    type V = HostView;

    open spec fn view(&self) -> HostView {
        HostView {
            addr: self.addr,
            udp: self.udp@,
            tcp: self.tcp@,
            timer: self.timer,
            next_port: self.next_ephemeral_port,
            ports: self.ports,
            overflow: self.overflow,
        }
    }
}

/// Whether a host takes the message in: datagrams, and requests for connections.
pub open spec fn is_taken_in(p: Packet) -> bool {
    p is Datagram || p is Syn
}

/// Whether a host takes the message in.
pub fn can_take_in(message: &Protocol) -> (r: bool)
    ensures
        r == is_taken_in(message@),
{
    match message {
        Protocol::Udp(_) => true,
        Protocol::Tcp(Segment::Syn(_)) => true,
        Protocol::Tcp(_) => false,
    }
}

impl HostView {
    /// The host once a message has come in.
    pub open spec fn received(self, src: SocketAddr, dst: SocketAddr, p: Packet) -> HostView {
        match p {
            Packet::Datagram(data) => HostView { udp: self.udp.received(src, dst, data), ..self },
            Packet::Syn(syn) => HostView { tcp: self.tcp.requested(src, dst, syn), ..self },
            _ => self,
        }
    }

    /// Whether the host has room for the message: a request for a connection needs some.
    pub open spec fn takes_in(self, dst: SocketAddr, p: Packet) -> bool {
        p is Syn ==> self.tcp.has_room(dst)
    }

    /// The host once a message has come in, or once it is noted that the message found no room.
    pub open spec fn offered(self, src: SocketAddr, dst: SocketAddr, p: Packet) -> HostView {
        if self.takes_in(dst, p) {
            self.received(src, dst, p)
        } else if self.overflow is None {
            HostView { overflow: Some(dst), ..self }
        } else {
            self
        }
    }

    /// Whether the host hands out the port next: it is the first one, in turn, to which no
    /// datagram socket is bound.
    pub open spec fn hands_out(self, port: u16) -> bool {
        exists|n: nat|
            {
                &&& port == #[trigger] self.ports.after_by(self.next_port, n)
                &&& !self.udp.binds.contains_key(port)
                &&& forall|k: nat|
                    k < n ==> self.udp.binds.contains_key(
                        #[trigger] self.ports.after_by(self.next_port, k),
                    )
            }
    }
}

impl HostView {
    /// The port that the host hands out next.
    pub open spec fn free_port(self) -> u16 {
        choose|p: u16| self.hands_out(p)
    }

    /// A host without sockets.
    pub open spec fn fresh(
        addr: IpAddr,
        timer: HostTimer,
        ports: PortRange,
        tcp_capacity: usize,
        udp_capacity: usize,
    ) -> HostView {
        HostView {
            addr,
            udp: UdpView { binds: Map::empty(), capacity: udp_capacity },
            tcp: TcpView {
                fds: Map::empty(),
                next_fd: 0,
                binds: Map::empty(),
                sockets: Map::empty(),
                capacity: tcp_capacity,
            },
            timer,
            next_port: ports.first,
            ports,
            overflow: None,
        }
    }

    /// Whether the host has a port left to hand out.
    pub open spec fn has_free_port(self) -> bool {
        exists|p: u16| #[trigger] self.ports.has(p) && !self.udp.binds.contains_key(p)
    }
}

/// The port that a host hands out next is determined.
pub proof fn law_next_port_is_determined(h: HostView, p: u16)
    requires
        h.hands_out(p),
    ensures
        p == h.free_port(),
{
    let q = h.free_port();
    assert(h.hands_out(q));
    let m = choose|n: nat|
        {
            &&& p == #[trigger] h.ports.after_by(h.next_port, n)
            &&& !h.udp.binds.contains_key(p)
            &&& forall|k: nat|
                k < n ==> h.udp.binds.contains_key(#[trigger] h.ports.after_by(h.next_port, k))
        };
    let n = choose|n: nat|
        {
            &&& q == #[trigger] h.ports.after_by(h.next_port, n)
            &&& !h.udp.binds.contains_key(q)
            &&& forall|k: nat|
                k < n ==> h.udp.binds.contains_key(#[trigger] h.ports.after_by(h.next_port, k))
        };
    if m < n {
        assert(h.udp.binds.contains_key(h.ports.after_by(h.next_port, m)));
    }
    if n < m {
        assert(h.udp.binds.contains_key(h.ports.after_by(h.next_port, n)));
    }
}

/// A request for a connection that finds no room changes nothing but what is noted of it.
pub proof fn law_overflow_is_noted(h: HostView, src: SocketAddr, dst: SocketAddr, p: Packet)
    requires
        !h.takes_in(dst, p),
    ensures
        h.offered(src, dst, p).overflow is Some,
        h.offered(src, dst, p).tcp == h.tcp,
        h.offered(src, dst, p).udp == h.udp,
        h.overflow is Some ==> h.offered(src, dst, p) == h,
{
}

/// A socket keeps no more datagrams than it has room for.
pub proof fn law_queue_is_bounded(u: UdpView, src: SocketAddr, dst: SocketAddr, data: Seq<u8>)
    requires
        forall|p: u16| #[trigger]
            u.binds.contains_key(p) ==> u.binds[p].queue.len() <= u.capacity,
    ensures
        forall|p: u16| #[trigger]
            u.received(src, dst, data).binds.contains_key(p) ==> u.received(src, dst, data).binds[p]
                .queue.len() <= u.capacity,
{
    let after = u.received(src, dst, data);
    assert forall|p: u16| #[trigger] after.binds.contains_key(p) implies after.binds[p].queue.len()
        <= u.capacity by {
        assert(u.binds.contains_key(p));
    }
}

/// A datagram for an address to which the socket on the port is not bound is dropped: one that
/// is bound to the host itself gets nothing from outside.
pub proof fn law_other_address_is_dropped(
    u: UdpView,
    src: SocketAddr,
    dst: SocketAddr,
    data: Seq<u8>,
)
    requires
        u.binds.contains_key(dst.port) ==> !u.binds[dst.port].addr.ip.unspecified()
            && u.binds[dst.port].addr != dst,
    ensures
        u.received(src, dst, data) == u,
{
}

/// Datagrams that come in are taken in the order in which they came.
pub proof fn law_datagrams_keep_their_order(
    u: UdpView,
    src: SocketAddr,
    dst: SocketAddr,
    data: Seq<u8>,
)
    requires
        u.takes(dst),
    ensures
        ({
            let before = u.binds[dst.port].queue;
            let after = u.received(src, dst, data).binds[dst.port].queue;
            &&& after.take(before.len() as int) == before
            &&& after.last() == (data, src)
        }),
{
    let before = u.binds[dst.port].queue;
    let after = u.received(src, dst, data).binds[dst.port].queue;
    assert(after.take(before.len() as int) =~= before);
}

impl Host {
    /// Whether the sockets are well formed and the next port is one of those handed out.
    pub open spec fn wf(&self) -> bool {
        &&& self.udp.wf()
        &&& self.tcp.wf()
        &&& self@.ports.has(self@.next_port)
    }

    /// A host without sockets that hands out the ports by default.
    pub fn new(addr: IpAddr, tcp_capacity: usize, udp_capacity: usize) -> (r: Host)
        ensures
            r.wf(),
            r@ == HostView::fresh(
                addr,
                HostTimer::fresh(Duration { nanos: 0 }, Duration { nanos: 0 }),
                PortRange { first: FIRST_EPHEMERAL_PORT, last: LAST_EPHEMERAL_PORT },
                tcp_capacity,
                udp_capacity,
            ),
    {
        Host::with_timer(
            addr,
            HostTimer::new(Duration::zero(), Duration::zero()),
            PortRange { first: FIRST_EPHEMERAL_PORT, last: LAST_EPHEMERAL_PORT },
            tcp_capacity,
            udp_capacity,
        )
    }

    /// A host without sockets.
    pub fn with_timer(
        addr: IpAddr,
        timer: HostTimer,
        ports: PortRange,
        tcp_capacity: usize,
        udp_capacity: usize,
    ) -> (r: Host)
        requires
            ports.first <= ports.last,
        ensures
            r.wf(),
            r@ == HostView::fresh(addr, timer, ports, tcp_capacity, udp_capacity),
    {
        Host {
            addr,
            udp: Udp::new(udp_capacity),
            tcp: Tcp::new(tcp_capacity),
            timer,
            next_ephemeral_port: ports.first,
            ports,
            overflow: None,
        }
    }

    /// Whether a port is left to hand out.
    pub fn has_free_port(&self) -> (r: bool)
        requires
            self.wf(),
        ensures
            r == self@.has_free_port(),
    {
        let mut port: u16 = self.ports.first;
        while port <= self.ports.last
            invariant
                self.ports.first <= port,
                forall|p: u16| #[trigger]
                    self@.ports.has(p) && p < port ==> self@.udp.binds.contains_key(p),
            decreases self.ports.last - port + 1,
        {
            if !self.udp.is_port_assigned(port) {
                assert(self@.ports.has(port));
                return true;
            }
            if port == self.ports.last {
                return false;
            }
            port = port + 1;
        }
        false
    }

    /// Hands out the next port to which no datagram socket is bound.
    pub fn assign_ephemeral_port(&mut self) -> (r: u16)
        requires
            old(self).wf(),
            old(self)@.has_free_port(),
        ensures
            final(self).wf(),
            old(self)@.ports.has(r),
            old(self)@.hands_out(r),
            r == old(self)@.free_port(),
            final(self)@ == (HostView { next_port: old(self)@.ports.after(r), ..old(self)@ }),
    {
        let ghost start = self.next_ephemeral_port;
        let ghost view = self@;
        let ghost free = choose|p: u16|
            #[trigger] view.ports.has(p) && !view.udp.binds.contains_key(p);
        let ghost mut n: nat = 0;
        loop
            invariant
                view == old(self)@,
                start == view.next_port,
                self.udp == old(self).udp,
                self.tcp == old(self).tcp,
                self.addr == old(self).addr,
                self.timer == old(self).timer,
                self.ports == view.ports,
                self.overflow == view.overflow,
                self.udp@ == view.udp,
                self.udp.wf(),
                self.tcp.wf(),
                view.ports.has(self.next_ephemeral_port),
                view.ports.has(free),
                !view.udp.binds.contains_key(free),
                self.next_ephemeral_port == view.ports.after_by(start, n),
                forall|k: nat|
                    k < n ==> view.udp.binds.contains_key(
                        #[trigger] view.ports.after_by(start, k),
                    ),
            decreases
                    if free >= self.next_ephemeral_port {
                        free - self.next_ephemeral_port
                    } else {
                        view.ports.last - self.next_ephemeral_port + 1 + free - view.ports.first
                    },
        {
            let ret: u16 = self.next_ephemeral_port;
            if self.next_ephemeral_port == self.ports.last {
                self.next_ephemeral_port = self.ports.first;
            } else {
                self.next_ephemeral_port = self.next_ephemeral_port + 1;
            }
            if self.udp.is_port_assigned(ret) {
                proof {
                    n = n + 1;
                    assert(view.ports.after_by(start, n) == view.ports.after(ret));
                }
                continue;
            }
            proof {
                assert(ret == view.ports.after_by(view.next_port, n));
                assert(view.hands_out(ret));
                law_next_port_is_determined(view, ret);
            }
            return ret;
        }
    }

    /// Whether the host has room for the message.
    pub fn has_room(&self, envelope: &Envelope) -> (r: bool)
        requires
            self.wf(),
        ensures
            r == self@.takes_in(envelope.dst, envelope@.packet),
    {
        match &envelope.message {
            Protocol::Tcp(Segment::Syn(_)) => self.tcp.has_room(envelope.dst),
            _ => true,
        }
    }

    /// Takes in a message where there is room for it, and notes its address otherwise.
    pub fn offer(&mut self, envelope: Envelope)
        requires
            old(self).wf(),
            is_taken_in(envelope@.packet),
        ensures
            final(self).wf(),
            final(self)@ == old(self)@.offered(envelope.src, envelope.dst, envelope@.packet),
    {
        if self.has_room(&envelope) {
            let _ = self.receive_from_network(envelope);
        } else if self.overflow.is_none() {
            self.overflow = Some(envelope.dst);
        }
    }

    /// Takes in a message. Returns the task that is to be woken.
    pub fn receive_from_network(&mut self, envelope: Envelope) -> (r: Option<u64>)
        requires
            old(self).wf(),
            is_taken_in(envelope@.packet),
            old(self)@.takes_in(envelope.dst, envelope@.packet),
        ensures
            final(self).wf(),
            final(self)@ == old(self)@.received(envelope.src, envelope.dst, envelope@.packet),
            r == (match envelope@.packet {
                Packet::Syn(_) => match old(self)@.tcp.listener(envelope.dst) {
                    Some(fd) => old(self)@.tcp.binds[fd].waker,
                    None => None,
                },
                _ => None,
            }),
    {
        let Envelope { src, dst, message } = envelope;
        match message {
            Protocol::Tcp(segment) => self.tcp.receive_from_network(src, dst, segment),
            Protocol::Udp(datagram) => {
                self.udp.receive_from_network(src, dst, datagram);
                None
            },
        }
    }

    /// Adds a step to the host's time.
    pub fn tick(&mut self, duration: Duration)
        requires
            old(self).wf(),
            old(self)@.timer.elapsed.nanos + duration.nanos <= u128::MAX,
        ensures
            final(self).wf(),
            final(self)@ == (HostView {
                timer: HostTimer {
                    elapsed: Duration {
                        nanos: (old(self)@.timer.elapsed.nanos + duration.nanos) as u128,
                    },
                    ..old(self)@.timer
                },
                ..old(self)@
            }),
    {
        self.timer.tick(duration);
    }
}

} // verus!
