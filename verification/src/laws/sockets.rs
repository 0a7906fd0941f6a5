//! Laws of the sockets of a host: which socket a message reaches, where datagrams go, and which
//! ports are handed out.
use crate::addr::{IpAddr, Ipv4Addr, Ipv6Addr, SocketAddr};
use crate::envelope::{Packet, Syn};
use crate::error::{Cause, Error, ErrorKind};
use crate::host;
use crate::host::{HostView, PortRange};
use crate::kernel;
use crate::kernel::{Fd, TcpView};
use crate::net::groups;
use crate::net::tcp;
use crate::net::udp;
use crate::net::udp::Target;
use crate::ordered;
use crate::top;
use crate::top::{Fate, Pair};
use crate::world::WorldView;
use vstd::prelude::*;

verus! {

/// Whether the address is `0.0.0.0` or `::`.
pub open spec fn is_any(a: IpAddr) -> bool {
    match a {
        IpAddr::V4(v4) => v4.bits == 0,
        IpAddr::V6(v6) => v6.bits == 0,
    }
}

/// Whether the address is in `127.0.0.0/8`, or is `::1`.
pub open spec fn is_self(a: IpAddr) -> bool {
    match a {
        IpAddr::V4(v4) => 0x7f00_0000 <= v4.bits < 0x8000_0000,
        IpAddr::V6(v6) => v6.bits == 1,
    }
}

/// Whether the address is in `224.0.0.0/4` or in `ff00::/8`.
pub open spec fn is_group(a: IpAddr) -> bool {
    match a {
        IpAddr::V4(v4) => 0xe000_0000 <= v4.bits < 0xf000_0000,
        IpAddr::V6(v6) => v6.bits >= 0xff00_0000_0000_0000_0000_0000_0000_0000,
    }
}

/// The addresses that stand for all addresses of a host, for the host itself, for a group and
/// for all hosts are those of these ranges.
pub proof fn law_kinds_of_addresses(a: IpAddr)
    ensures
        a.unspecified() == is_any(a),
        a.loopback() == is_self(a),
        a.multicast() == is_group(a),
        udp::is_broadcast(a) == (a == IpAddr::V4(Ipv4Addr { bits: 0xffff_ffff })),
        udp::is_supported(a) == (is_any(a) || is_self(a)),
{
}

/// A datagram that comes in is last in line at the socket on its port, where that is bound to
/// the address or to every address and fewer wait than it has room for. Otherwise it is dropped.
/// Nothing else about the host changes.
pub proof fn law_datagram_reaches_its_socket(
    h: HostView,
    src: SocketAddr,
    dst: SocketAddr,
    data: Seq<u8>,
    port: u16,
)
    ensures
        ({
            let after = h.offered(src, dst, Packet::Datagram(data));
            let bind = h.udp.binds[dst.port];
            let is_taken = h.udp.binds.contains_key(dst.port) && (bind.addr == dst || (is_any(
                bind.addr.ip,
            ) && bind.addr.port == dst.port)) && bind.queue.len() < h.udp.capacity;
            &&& (after.addr, after.tcp, after.timer, after.next_port, after.ports, after.overflow)
                == (h.addr, h.tcp, h.timer, h.next_port, h.ports, h.overflow)
            &&& after.udp.capacity == h.udp.capacity
            &&& after.udp.binds.dom() == h.udp.binds.dom()
            &&& port != dst.port && h.udp.binds.contains_key(port) ==> after.udp.binds[port]
                == h.udp.binds[port]
            &&& is_taken ==> {
                let b = after.udp.binds[dst.port];
                &&& b.queue == bind.queue.push((data, src))
                &&& (b.addr, b.broadcast, b.multicast_loop) == (
                    bind.addr,
                    bind.broadcast,
                    bind.multicast_loop,
                )
            }
            &&& !is_taken ==> after == h
        }),
{
    let after = h.offered(src, dst, Packet::Datagram(data));
    assert(after.udp.binds.dom() =~= h.udp.binds.dom());
}

/// What is read next from a socket is what it has taken in before, or else the oldest datagram
/// that waits on its port, which then no longer does. What waits elsewhere stays.
pub proof fn law_oldest_datagram_is_read(s: udp::UdpSocket, w: WorldView, a: IpAddr, port: u16)
    requires
        w.current is Some,
        s.buffer is None,
    ensures
        ({
            let here = w.current->0;
            let binds = w.hosts[here].udp.binds;
            let own = s.local_addr.port;
            let after = udp::taken_from(w, own);
            &&& udp::has_datagram(s, w) == (binds.contains_key(own) && binds[own].queue.len() > 0)
            &&& udp::has_datagram(s, w) ==> {
                &&& udp::next_datagram(s, w) == binds[own].queue[0]
                &&& after.hosts[here].udp.binds[own].queue == binds[own].queue.subrange(
                    1,
                    binds[own].queue.len() as int,
                )
                &&& (after.order, after.topology, after.dns, after.groups, after.current) == (
                    w.order,
                    w.topology,
                    w.dns,
                    w.groups,
                    w.current,
                )
                &&& a != here && w.hosts.contains_key(a) ==> after.hosts[a] == w.hosts[a]
                &&& port != own && binds.contains_key(port) ==> after.hosts[here].udp.binds[port]
                    == binds[port]
                &&& after.hosts[here].tcp == w.hosts[here].tcp
            }
        }),
{
    let own = s.local_addr.port;
    let q = w.hosts[w.current->0].udp.binds[own].queue;
    if udp::has_datagram(s, w) {
        assert(q.skip(1) =~= q.subrange(1, q.len() as int));
    }
}

/// A request for a connection waits last in line at the socket that listens for every short
/// address on its port, or else for every long one, or else at its very address, and whoever
/// waits there for requests is no longer noted. Without such a socket the request is dropped, and
/// where no more requests can wait there the address is noted, unless one is already.
pub proof fn law_request_reaches_its_listener(
    h: HostView,
    src: SocketAddr,
    dst: SocketAddr,
    syn: Syn,
    other: Fd,
)
    ensures
        ({
            let after = h.offered(src, dst, Packet::Syn(syn));
            let tcp = h.tcp;
            let short = SocketAddr { ip: IpAddr::V4(Ipv4Addr { bits: 0 }), port: dst.port };
            let long = SocketAddr { ip: IpAddr::V6(Ipv6Addr { bits: 0 }), port: dst.port };
            let hears = |a: SocketAddr| tcp.fds.contains_key(a) && tcp.binds.contains_key(tcp.fds[a]);
            let at = if hears(short) {
                short
            } else if hears(long) {
                long
            } else {
                dst
            };
            let fd = tcp.fds[at];
            &&& (after.addr, after.udp, after.timer, after.next_port, after.ports) == (
                h.addr,
                h.udp,
                h.timer,
                h.next_port,
                h.ports,
            )
            &&& (after.tcp.fds, after.tcp.next_fd, after.tcp.sockets, after.tcp.capacity) == (
                tcp.fds,
                tcp.next_fd,
                tcp.sockets,
                tcp.capacity,
            )
            &&& after.tcp.binds.dom() == tcp.binds.dom()
            &&& !hears(at) ==> after == h
            &&& hears(at) && tcp.binds[fd].queue.len() >= tcp.capacity ==> after.tcp == tcp
                && after.overflow == (if h.overflow is None {
                Some(dst)
            } else {
                h.overflow
            })
            &&& hears(at) && tcp.binds[fd].queue.len() < tcp.capacity ==> {
                &&& after.overflow == h.overflow
                &&& after.tcp.binds[fd].queue == tcp.binds[fd].queue.push((syn, src))
                &&& after.tcp.binds[fd].addr == tcp.binds[fd].addr
                &&& after.tcp.binds[fd].waker is None
                &&& other != fd && tcp.binds.contains_key(other) ==> after.tcp.binds[other]
                    == tcp.binds[other]
            }
        }),
{
    let after = h.offered(src, dst, Packet::Syn(syn));
    assert(after.tcp.binds.dom() =~= h.tcp.binds.dom());
}

/// A request that is accepted leaves the line, and the connection has the next number. It ends
/// at the address of the listener; at the origin's address where that stands for the host itself;
/// and else at the host's where the listener serves every address. It is found there unless a
/// socket listens at that very address.
pub proof fn law_accepted_connection(
    v: TcpView,
    fd: Fd,
    origin: SocketAddr,
    public_ip: IpAddr,
    other: Fd,
    a: SocketAddr,
)
    requires
        v.is_numbered(),
        v.binds.contains_key(fd),
        v.binds[fd].queue.len() > 0,
        v.next_fd < u16::MAX,
    ensures
        ({
            let bound = v.binds[fd].addr;
            let local = kernel::accepted_at(bound, origin, public_ip);
            let after = v.taken(fd).accepted(local);
            let new = Fd(v.next_fd);
            &&& local.port == bound.port
            &&& local.ip == (if is_self(origin.ip) {
                origin.ip
            } else if is_any(bound.ip) {
                public_ip
            } else {
                bound.ip
            })
            &&& after.binds[fd].queue == v.binds[fd].queue.subrange(
                1,
                v.binds[fd].queue.len() as int,
            )
            &&& after.binds[fd].addr == bound
            &&& after.binds.dom() == v.binds.dom()
            &&& other != fd && v.binds.contains_key(other) ==> after.binds[other] == v.binds[other]
            &&& after.sockets.contains_key(new) && after.sockets[new] == local
            &&& !v.sockets.contains_key(new) && !v.binds.contains_key(new)
            &&& other != new ==> after.sockets.contains_key(other) == v.sockets.contains_key(other)
            &&& other != new && v.sockets.contains_key(other) ==> after.sockets[other]
                == v.sockets[other]
            &&& after.next_fd == v.next_fd + 1 && after.capacity == v.capacity
            &&& a != local ==> after.fds.contains_key(a) == v.fds.contains_key(a)
            &&& a != local && v.fds.contains_key(a) ==> after.fds[a] == v.fds[a]
            &&& after.fds.contains_key(local) && after.fds[local] == (if v.fds.contains_key(local)
                && v.binds.contains_key(v.fds[local]) {
                v.fds[local]
            } else {
                new
            })
        }),
{
    let q = v.binds[fd].queue;
    assert(q.skip(1) =~= q.subrange(1, q.len() as int));
    let local = kernel::accepted_at(v.binds[fd].addr, origin, public_ip);
    let after = v.taken(fd).accepted(local);
    assert(after.binds.dom() =~= v.binds.dom());
    law_kinds_of_addresses(origin.ip);
}

/// A socket that is closed is neither among those that listen nor among those that are connected.
/// Its address is free where it was the one that is found there. The others stay.
pub proof fn law_closed_socket_is_gone(v: TcpView, fd: Fd, other: Fd, a: SocketAddr)
    ensures
        ({
            let after = v.without(fd);
            let own = if v.binds.contains_key(fd) {
                Some(v.binds[fd].addr)
            } else if v.sockets.contains_key(fd) {
                Some(v.sockets[fd])
            } else {
                None
            };
            &&& !after.binds.contains_key(fd) && !after.sockets.contains_key(fd)
            &&& other != fd ==> after.binds.contains_key(other) == v.binds.contains_key(other)
                && after.sockets.contains_key(other) == v.sockets.contains_key(other)
            &&& other != fd && v.binds.contains_key(other) ==> after.binds[other] == v.binds[other]
            &&& other != fd && v.sockets.contains_key(other) ==> after.sockets[other]
                == v.sockets[other]
            &&& after.fds.contains_key(a) == (v.fds.contains_key(a) && !(own == Some(a) && v.fds[a]
                == fd))
            &&& after.fds.contains_key(a) ==> after.fds[a] == v.fds[a]
            &&& after.next_fd == v.next_fd && after.capacity == v.capacity
        }),
{
}

/// A socket that is bound to an address listens there with nothing in line; one that is connected
/// is found at its address. Each has the next number, and nothing else changes.
pub proof fn law_new_sockets(v: TcpView, addr: SocketAddr, other: Fd, a: SocketAddr)
    requires
        v.next_fd < u16::MAX,
    ensures
        ({
            let new = Fd(v.next_fd);
            let (bound, connected) = (v.bound(addr), v.connected(addr));
            &&& bound.binds.contains_key(new) && bound.binds[new].addr == addr
                && bound.binds[new].queue.len() == 0 && bound.binds[new].waker is None
            &&& other != new ==> bound.binds.contains_key(other) == v.binds.contains_key(other)
            &&& other != new && v.binds.contains_key(other) ==> bound.binds[other]
                == v.binds[other]
            &&& bound.sockets == v.sockets && connected.binds == v.binds
            &&& connected.sockets.contains_key(new) && connected.sockets[new] == addr
            &&& other != new ==> connected.sockets.contains_key(other) == v.sockets.contains_key(
                other,
            )
            &&& other != new && v.sockets.contains_key(other) ==> connected.sockets[other]
                == v.sockets[other]
            &&& bound.fds == connected.fds
            &&& bound.fds.contains_key(addr) && bound.fds[addr] == new
            &&& a != addr ==> bound.fds.contains_key(a) == v.fds.contains_key(a)
            &&& a != addr && v.fds.contains_key(a) ==> bound.fds[a] == v.fds[a]
            &&& bound.next_fd == v.next_fd + 1 && connected.next_fd == v.next_fd + 1
            &&& bound.capacity == v.capacity && connected.capacity == v.capacity
        }),
{
}

/// A socket for a connection to an address is on the port that is handed out, and has the host's
/// address, or the one that stands for the host itself where that is asked for.
pub proof fn law_connecting_socket(h: HostView, dst: SocketAddr)
    requires
        h.tcp.next_fd < u16::MAX,
    ensures
        ({
            let local = tcp::local_for(h, dst);
            let after = tcp::with_socket(h, dst);
            &&& local.port == h.free_port()
            &&& local.ip == (if is_self(dst.ip) {
                dst.ip
            } else {
                h.addr
            })
            &&& after.tcp.sockets[Fd(h.tcp.next_fd)] == local
            &&& after.tcp.fds[local] == Fd(h.tcp.next_fd)
            &&& after.tcp.binds == h.tcp.binds
            &&& after.next_port == (if local.port == h.ports.last {
                h.ports.first
            } else {
                (local.port + 1) as u16
            })
            &&& (after.addr, after.udp, after.timer, after.ports, after.overflow) == (
                h.addr,
                h.udp,
                h.timer,
                h.ports,
                h.overflow,
            )
            &&& host::stays_within(local, dst) == (is_self(dst.ip) || dst.ip == h.addr)
        }),
{
    law_kinds_of_addresses(dst.ip);
}

proof fn lemma_after_by(ports: PortRange, port: u16, n: nat)
    requires
        ports.first <= port <= ports.last,
    ensures
        ports.first <= ports.after_by(port, n) <= ports.last,
        (ports.after_by(port, n) - ports.first) == (port - ports.first + n) % (ports.last
            - ports.first + 1),
    decreases n,
{
    let size = ports.last - ports.first + 1;
    if n == 0 {
        vstd::arithmetic::div_mod::lemma_small_mod((port - ports.first) as nat, size as nat);
    } else {
        lemma_after_by(ports, port, (n - 1) as nat);
        let k = port - ports.first + n - 1;
        let before = ports.after_by(port, (n - 1) as nat) - ports.first;
        vstd::arithmetic::div_mod::lemma_add_mod_noop(k, 1, size);
        if before == size - 1 {
            assert(ports.after_by(port, n) == ports.first);
            if size == 1 {
                assert(k % 1 == 0 && (k + 1) % 1 == 0);
            } else {
                vstd::arithmetic::div_mod::lemma_small_mod(1, size as nat);
                assert((before + 1) % size == 0) by {
                    vstd::arithmetic::div_mod::lemma_mod_self_0(size);
                }
            }
        } else {
            vstd::arithmetic::div_mod::lemma_small_mod(1, size as nat);
            vstd::arithmetic::div_mod::lemma_small_mod((before + 1) as nat, size as nat);
        }
    }
}

/// Whether the port comes, in turn, from the first one on before the second. After the last of
/// the range comes its first.
pub open spec fn comes_before(from: u16, q: u16, p: u16) -> bool {
    if from <= p {
        from <= q < p
    } else {
        from <= q || q < p
    }
}

/// The port that is handed out is in the range and free, and every port of the range that comes
/// before it in turn is taken. There is one where a port of the range is free.
pub proof fn law_port_is_the_next_free_one(h: HostView, p: u16, q: u16)
    requires
        h.ports.first <= h.next_port <= h.ports.last,
    ensures
        h.hands_out(p) ==> {
            &&& h.ports.first <= p <= h.ports.last
            &&& !h.udp.binds.contains_key(p)
            &&& h.ports.first <= q <= h.ports.last && comes_before(h.next_port, q, p)
                ==> h.udp.binds.contains_key(q)
        },
        h.ports.first <= q <= h.ports.last && !h.udp.binds.contains_key(q) ==> h.hands_out(
            h.free_port(),
        ),
        h.has_free_port() == exists|q: u16|
            h.ports.first <= q <= h.ports.last && !#[trigger] h.udp.binds.contains_key(q),
{
    let (first, last, next) = (h.ports.first, h.ports.last, h.next_port);
    let size = last - first + 1;
    if h.hands_out(p) {
        let n = choose|n: nat|
            {
                &&& p == #[trigger] h.ports.after_by(next, n)
                &&& !h.udp.binds.contains_key(p)
                &&& forall|k: nat|
                    k < n ==> h.udp.binds.contains_key(#[trigger] h.ports.after_by(next, k))
            };
        lemma_after_by(h.ports, next, n);
        if first <= q <= last && comes_before(next, q, p) {
            let k = lemma_turn(h.ports, next, q);
            let m = lemma_turn(h.ports, next, p);
            if n < m {
                lemma_turn_is_least(h.ports, next, p, n, m);
            }
            assert(k < m);
            assert(h.udp.binds.contains_key(h.ports.after_by(next, k)));
        }
    }
    if first <= q <= last && !h.udp.binds.contains_key(q) {
        let k = lemma_turn(h.ports, next, q);
        lemma_first_free(h, k);
    }
    if h.has_free_port() {
        let p = choose|p: u16| #[trigger] h.ports.has(p) && !h.udp.binds.contains_key(p);
        assert(first <= p <= last && !h.udp.binds.contains_key(p));
    }
    if exists|q: u16| first <= q <= last && !#[trigger] h.udp.binds.contains_key(q) {
        let q = choose|q: u16| first <= q <= last && !#[trigger] h.udp.binds.contains_key(q);
        assert(h.ports.has(q));
    }
}

/// After how many turns the port comes.
proof fn lemma_turn(ports: PortRange, from: u16, q: u16) -> (k: nat)
    requires
        ports.first <= from <= ports.last,
        ports.first <= q <= ports.last,
    ensures
        k == (if from <= q {
            q - from
        } else {
            q - from + (ports.last - ports.first + 1)
        }),
        ports.after_by(from, k) == q,
{
    let size = ports.last - ports.first + 1;
    let k = if from <= q {
        (q - from) as nat
    } else {
        (q - from + size) as nat
    };
    lemma_after_by(ports, from, k);
    let x = q - ports.first;
    if from <= q {
        vstd::arithmetic::div_mod::lemma_small_mod(x as nat, size as nat);
    } else {
        vstd::arithmetic::div_mod::lemma_mod_add_multiples_vanish(x, size);
        vstd::arithmetic::div_mod::lemma_small_mod(x as nat, size as nat);
    }
    k
}

proof fn lemma_turn_is_least(ports: PortRange, from: u16, p: u16, n: nat, m: nat)
    requires
        ports.first <= from <= ports.last,
        ports.first <= p <= ports.last,
        ports.after_by(from, n) == p,
        m == (if from <= p {
            p - from
        } else {
            p - from + (ports.last - ports.first + 1)
        }),
    ensures
        n >= m,
{
    let size = ports.last - ports.first + 1;
    lemma_after_by(ports, from, n);
    if n < m {
        let x = from - ports.first + n;
        if x < size {
            vstd::arithmetic::div_mod::lemma_small_mod(x as nat, size as nat);
        } else {
            vstd::arithmetic::div_mod::lemma_mod_add_multiples_vanish(x - size, size);
            vstd::arithmetic::div_mod::lemma_small_mod((x - size) as nat, size as nat);
        }
    }
}

/// Where some port that comes is free, a first one is.
proof fn lemma_first_free(h: HostView, k: nat)
    requires
        !h.udp.binds.contains_key(h.ports.after_by(h.next_port, k)),
    ensures
        h.hands_out(h.free_port()),
    decreases k,
{
    if forall|j: nat|
        j < k ==> h.udp.binds.contains_key(#[trigger] h.ports.after_by(h.next_port, j)) {
        assert(h.hands_out(h.ports.after_by(h.next_port, k)));
    } else {
        let j = choose|j: nat|
            j < k && !h.udp.binds.contains_key(#[trigger] h.ports.after_by(h.next_port, j));
        lemma_first_free(h, j);
    }
}

/// Port zero stands for the port that is handed out, after which the next one is tried; any other
/// port is the one that is asked for, and the host stays as it is. A new datagram socket has
/// nothing in line, may not send to all hosts, and gets what its host sends to its groups.
pub proof fn law_bound_datagram_socket(h: HostView, a: SocketAddr, port: u16)
    ensures
        ({
            let (after, local) = udp::port_chosen(h, a);
            let udp = after.udp.bound(local);
            &&& local.ip == a.ip
            &&& local.port == (if a.port == 0 {
                h.free_port()
            } else {
                a.port
            })
            &&& a.port != 0 ==> after == h
            &&& a.port == 0 ==> after.next_port == (if local.port == h.ports.last {
                h.ports.first
            } else {
                (local.port + 1) as u16
            })
            &&& (after.addr, after.udp, after.tcp, after.timer, after.ports, after.overflow) == (
                h.addr,
                h.udp,
                h.tcp,
                h.timer,
                h.ports,
                h.overflow,
            )
            &&& udp.capacity == h.udp.capacity
            &&& udp.binds.contains_key(local.port) && {
                let b = udp.binds[local.port];
                b.addr == local && b.queue.len() == 0 && !b.broadcast && b.multicast_loop
            }
            &&& port != local.port ==> udp.binds.contains_key(port) == h.udp.binds.contains_key(port)
            &&& port != local.port && h.udp.binds.contains_key(port) ==> udp.binds[port]
                == h.udp.binds[port]
        }),
{
}

/// A datagram comes from its socket's port, and from the socket's address; from the address that
/// it goes to where that stands for the host itself; and else from the host's where the socket is
/// bound to every address.
pub proof fn law_datagram_source(local: SocketAddr, dst: SocketAddr, host: IpAddr)
    ensures
        ({
            let src = udp::source(local, dst, host);
            &&& src.port == local.port
            &&& src.ip == (if is_self(dst.ip) {
                dst.ip
            } else if is_any(local.ip) {
                host
            } else {
                local.ip
            })
        }),
{
    law_kinds_of_addresses(dst.ip);
    law_kinds_of_addresses(local.ip);
}

/// A datagram to all hosts goes to the port of every host that has a socket on it, the hosts in
/// the order in which they came, where the sender's socket may do so. One to a group goes to the
/// sockets in the group in their order, but on the sender's own host only to those that want what
/// the host sends to groups. Any other goes to the one address. Within the host stays what goes
/// to the sender's own address or to the host itself.
pub proof fn law_datagram_destinations(w: WorldView, local: SocketAddr, dst: SocketAddr)
    requires
        w.current is Some,
    ensures
        ({
            let own = w.hosts[w.current->0];
            let src = udp::source(local, dst, own.addr);
            let binds = own.udp.binds;
            let plan = udp::planned(w, local, dst);
            if (local.ip is V4) != (dst.ip is V4) {
                plan == Err::<Seq<Target>, Error>(
                    Error { kind: ErrorKind::InvalidInput, cause: Cause::VersionMismatch },
                )
            } else if dst.ip == IpAddr::V4(Ipv4Addr { bits: 0xffff_ffff }) {
                if binds.contains_key(local.port) && binds[local.port].broadcast {
                    plan == Ok::<Seq<Target>, Error>(
                        w.order.filter(
                            |a: IpAddr| w.hosts[a].udp.binds.contains_key(dst.port),
                        ).map_values(
                            |a: IpAddr|
                                Target {
                                    dst: SocketAddr { ip: a, port: dst.port },
                                    loopback: src.ip == a,
                                },
                        ),
                    )
                } else {
                    plan == Err::<Seq<Target>, Error>(
                        Error { kind: ErrorKind::PermissionDenied, cause: Cause::BroadcastDisabled },
                    )
                }
            } else if is_group(dst.ip) {
                if !w.groups.contains_key(dst) {
                    plan == Ok::<Seq<Target>, Error>(Seq::empty())
                } else {
                    plan == Ok::<Seq<Target>, Error>(
                        w.groups[dst].filter(
                            |m: SocketAddr|
                                m.ip != src.ip || (binds.contains_key(m.port)
                                    && binds[m.port].multicast_loop),
                        ).map_values(
                            |m: SocketAddr| Target { dst: m, loopback: m.ip == src.ip },
                        ),
                    )
                }
            } else {
                plan == Ok::<Seq<Target>, Error>(
                    seq![Target { dst, loopback: is_self(dst.ip) || src.ip == dst.ip }],
                )
            }
        }),
{
    law_kinds_of_addresses(dst.ip);
    let own = w.hosts[w.current->0];
    let src = udp::source(local, dst, own.addr);
    let binds = own.udp.binds;
    if udp::is_broadcast(dst.ip) {
        lemma_listeners(w, src, dst.port, w.order.len() as int);
        assert(w.order.take(w.order.len() as int) =~= w.order);
    } else if dst.ip.multicast() && w.groups.contains_key(dst) {
        let group = w.groups[dst];
        lemma_members(w, src, group, group.len() as int);
        assert(group.take(group.len() as int) =~= group);
    }
}

proof fn lemma_listeners(w: WorldView, src: SocketAddr, port: u16, n: int)
    requires
        0 <= n <= w.order.len(),
    ensures
        udp::listeners(w, src, port, n) == w.order.take(n).filter(
            |a: IpAddr| w.hosts[a].udp.binds.contains_key(port),
        ).map_values(
            |a: IpAddr| Target { dst: SocketAddr { ip: a, port }, loopback: src.ip == a },
        ),
    decreases n,
{
    reveal(Seq::filter);
    let hears = |a: IpAddr| w.hosts[a].udp.binds.contains_key(port);
    let target = |a: IpAddr| Target { dst: SocketAddr { ip: a, port }, loopback: src.ip == a };
    let here = w.order.take(n).filter(hears);
    if n > 0 {
        lemma_listeners(w, src, port, n - 1);
        assert(w.order.take(n).drop_last() =~= w.order.take(n - 1));
        let before = w.order.take(n - 1).filter(hears);
        let a = w.order[n - 1];
        assert(before.push(a).map_values(target) =~= before.map_values(target).push(target(a)));
    } else {
        assert(here.map_values(target) =~= Seq::empty());
    }
}

proof fn lemma_members(w: WorldView, src: SocketAddr, group: Seq<SocketAddr>, n: int)
    requires
        0 <= n <= group.len(),
    ensures
        udp::members(w, src, group, n) == group.take(n).filter(
            |m: SocketAddr|
                m.ip != src.ip || (w.running().udp.binds.contains_key(m.port)
                    && w.running().udp.binds[m.port].multicast_loop),
        ).map_values(|m: SocketAddr| Target { dst: m, loopback: m.ip == src.ip }),
    decreases n,
{
    reveal(Seq::filter);
    let binds = w.running().udp.binds;
    let gets = |m: SocketAddr|
        m.ip != src.ip || (w.running().udp.binds.contains_key(m.port)
            && w.running().udp.binds[m.port].multicast_loop);
    let target = |m: SocketAddr| Target { dst: m, loopback: m.ip == src.ip };
    let here = group.take(n).filter(gets);
    if n > 0 {
        lemma_members(w, src, group, n - 1);
        assert(group.take(n).drop_last() =~= group.take(n - 1));
        let before = group.take(n - 1).filter(gets);
        let m = group[n - 1];
        assert(before.push(m).map_values(target) =~= before.map_values(target).push(target(m)));
    } else {
        assert(here.map_values(target) =~= Seq::empty());
    }
}

/// Sending a datagram fails where its destinations cannot be told, and then changes nothing. It
/// goes to one destination after the other, up to the first outside the host without a link, at
/// which it is refused. Those within the host are handed back, the others get it over their
/// links, each with its own fate.
pub proof fn law_datagram_goes_to_its_destinations(
    w: WorldView,
    local: SocketAddr,
    dst: SocketAddr,
    fates: Seq<Fate>,
    data: Seq<u8>,
    n: int,
)
    requires
        w.current is Some,
    ensures
        match udp::planned(w, local, dst) {
            Err(e) => {
                let s = udp::sending(w, local, dst, fates, data);
                s.world == w && s.result == Err::<usize, Error>(e) && s.loopbacks.len() == 0
            },
            Ok(plan) => {
                let src = udp::source(local, dst, w.hosts[w.current->0].addr);
                let s = udp::sending(w, local, dst, fates, data);
                let reaches = |i: int|
                    plan[i].loopback || w.topology.linked(src.ip, plan[i].dst.ip);
                let is_end = 0 <= n <= plan.len() && (forall|i: int|
                    0 <= i < n ==> #[trigger] reaches(i)) && (n < plan.len() ==> !reaches(n));
                is_end ==> {
                    &&& s.result == (if n < plan.len() {
                        Err::<usize, Error>(
                            Error { kind: ErrorKind::ConnectionRefused, cause: Cause::Refused },
                        )
                    } else {
                        Ok(data.len() as usize)
                    })
                    &&& s.loopbacks == plan.take(n).filter(|t: Target| t.loopback).map_values(
                        |t: Target| t.dst,
                    )
                    &&& s.world == Seq::new(n as nat, |i: int| (plan[i], fates[i])).fold_left(
                        w,
                        |w: WorldView, x: (Target, Fate)|
                            if x.0.loopback {
                                w
                            } else {
                                w.sent(x.1, src, x.0.dst, Packet::Datagram(data))
                            },
                    )
                }
            },
        },
{
    let src = udp::source(local, dst, w.running().addr);
    if let Ok(plan) = udp::planned(w, local, dst) {
        let reaches = |i: int| plan[i].loopback || w.topology.linked(src.ip, plan[i].dst.ip);
        if 0 <= n <= plan.len() && (forall|i: int| 0 <= i < n ==> #[trigger] reaches(i)) && (n
            < plan.len() ==> !reaches(n)) {
            assert forall|k: int| 0 <= k < n implies (#[trigger] plan[k]).loopback
                || w.topology.linked(src.ip, plan[k].dst.ip) by {
                assert(reaches(k));
            }
            lemma_refused(w, src, plan, 0, n);
            lemma_loopbacks(plan, n);
            lemma_sent(w, src, plan, fates, data, n);
        }
    }
}

proof fn lemma_refused(w: WorldView, src: SocketAddr, plan: Seq<Target>, i: int, n: int)
    requires
        0 <= i <= n <= plan.len(),
        forall|k: int|
            i <= k < n ==> (#[trigger] plan[k]).loopback || w.topology.linked(
                src.ip,
                plan[k].dst.ip,
            ),
        n < plan.len() ==> !plan[n].loopback && !w.topology.linked(src.ip, plan[n].dst.ip),
    ensures
        udp::first_refused(w, src, plan, i) == n,
    decreases n - i,
{
    if i < n {
        assert(plan[i].loopback || w.topology.linked(src.ip, plan[i].dst.ip));
        lemma_refused(w, src, plan, i + 1, n);
    }
}

proof fn lemma_loopbacks(plan: Seq<Target>, n: int)
    requires
        0 <= n <= plan.len(),
    ensures
        udp::loopbacks(plan, n) == plan.take(n).filter(|t: Target| t.loopback).map_values(
            |t: Target| t.dst,
        ),
    decreases n,
{
    reveal(Seq::filter);
    let near = |t: Target| t.loopback;
    let to = |t: Target| t.dst;
    let here = plan.take(n).filter(near);
    if n > 0 {
        lemma_loopbacks(plan, n - 1);
        assert(plan.take(n).drop_last() =~= plan.take(n - 1));
        let before = plan.take(n - 1).filter(near);
        let t = plan[n - 1];
        assert(before.push(t).map_values(to) =~= before.map_values(to).push(to(t)));
    } else {
        assert(here.map_values(to) =~= Seq::empty());
    }
}

proof fn lemma_sent(
    w: WorldView,
    src: SocketAddr,
    plan: Seq<Target>,
    fates: Seq<Fate>,
    data: Seq<u8>,
    n: int,
)
    requires
        0 <= n <= plan.len(),
    ensures
        udp::sent_to(w, src, plan, fates, data, n) == Seq::new(
            n as nat,
            |i: int| (plan[i], fates[i]),
        ).fold_left(
            w,
            |w: WorldView, x: (Target, Fate)|
                if x.0.loopback {
                    w
                } else {
                    w.sent(x.1, src, x.0.dst, Packet::Datagram(data))
                },
        ),
    decreases n,
{
    let list = Seq::new(n as nat, |i: int| (plan[i], fates[i]));
    if n > 0 {
        lemma_sent(w, src, plan, fates, data, n - 1);
        assert(list.drop_last() =~= Seq::new((n - 1) as nat, |i: int| (plan[i], fates[i])));
    }
}

/// A message between hosts that have a link goes over the link; between hosts that have none it
/// goes nowhere. Hosts, names and groups stay as they are.
pub proof fn law_message_stays_in_the_network(
    w: WorldView,
    fate: Fate,
    src: SocketAddr,
    dst: SocketAddr,
    packet: Packet,
)
    ensures
        ({
            let after = w.sent(fate, src, dst, packet);
            &&& (after.order, after.hosts, after.dns, after.groups, after.current) == (
                w.order,
                w.hosts,
                w.dns,
                w.groups,
                w.current,
            )
            &&& w.topology.linked(src.ip, dst.ip) ==> after.topology == w.topology.enqueued(
                fate,
                src,
                dst,
                packet,
            )
            &&& !w.topology.linked(src.ip, dst.ip) ==> after == w
        }),
{
}

/// A socket is in a group once it has joined it, last in line where it is new, and no longer once
/// it has left. The others stay in the group, and other groups stay as they are. A group that the
/// last socket leaves is no more.
pub proof fn law_group_members(
    all: Map<SocketAddr, Seq<SocketAddr>>,
    g: SocketAddr,
    member: SocketAddr,
    other: SocketAddr,
    h: SocketAddr,
)
    requires
        all.contains_key(g) ==> all[g].no_duplicates() && all[g].len() > 0,
    ensures
        ({
            let (joined, left) = (groups::joined(all, g, member), groups::left(all, g, member));
            let is_in = all.contains_key(g) && all[g].contains(member);
            &&& is_in ==> joined == all
            &&& !is_in ==> joined.contains_key(g) && joined[g] == (if all.contains_key(g) {
                all[g].push(member)
            } else {
                seq![member]
            })
            &&& h != g ==> joined.contains_key(h) == all.contains_key(h)
            &&& h != g && all.contains_key(h) ==> joined[h] == all[h]
            &&& left.contains_key(g) ==> left[g].no_duplicates()
            &&& (left.contains_key(g) && left[g].contains(other)) == (other != member
                && all.contains_key(g) && all[g].contains(other))
            &&& left.contains_key(g) ==> left[g].len() > 0
            &&& h != g ==> left.contains_key(h) == all.contains_key(h)
            &&& h != g && all.contains_key(h) ==> left[h] == all[h]
        }),
{
    if all.contains_key(g) {
        lemma_without_member(all[g], member, other);
        let rest = ordered::swapped_out(all[g], member);
        if rest.len() == 0 && rest.contains(other) {
            assert(false);
        }
    }
}

proof fn lemma_without_member(s: Seq<SocketAddr>, member: SocketAddr, other: SocketAddr)
    requires
        s.no_duplicates(),
    ensures
        ({
            let t = ordered::swapped_out(s, member);
            &&& t.no_duplicates()
            &&& t.contains(other) == (other != member && s.contains(other))
        }),
{
    let t = ordered::swapped_out(s, member);
    if s.contains(member) {
        let i = s.index_of(member);
        assert(s[i] == member);
        let last = s.len() - 1;
        assert forall|j: int| 0 <= j < t.len() implies t[j] == (if j == i {
            s[last]
        } else {
            s[j]
        }) by {}
        if t.contains(other) {
            let j = choose|j: int| 0 <= j < t.len() && t[j] == other;
            let k = if j == i {
                last
            } else {
                j
            };
            assert(s[k] == other);
            assert(k != i);
        }
        if other != member && s.contains(other) {
            let k = choose|k: int| 0 <= k < s.len() && s[k] == other;
            let j = if k == last {
                i
            } else {
                k
            };
            assert(t[j] == other);
        }
    } else if s.contains(other) {
        assert(other != member);
    }
}

/// A socket that has left all groups is in none, and every other socket is in the groups that it
/// was in. Groups without sockets are no more.
pub proof fn law_leaving_all_groups(
    all: Map<SocketAddr, Seq<SocketAddr>>,
    member: SocketAddr,
    other: SocketAddr,
    g: SocketAddr,
)
    requires
        all.contains_key(g) ==> all[g].no_duplicates(),
    ensures
        ({
            let left = groups::left_all(all, member);
            &&& (left.contains_key(g) && left[g].contains(other)) == (other != member
                && all.contains_key(g) && all[g].contains(other))
            &&& left.contains_key(g) ==> left[g].len() > 0 && left[g].no_duplicates()
        }),
{
    if all.contains_key(g) {
        lemma_without_member(all[g], member, other);
    }
}

/// A group can be joined where its address is one of a group, on the interface that stands for
/// any or, for short addresses, for the host itself; it can be left by a socket that is in it.
pub proof fn law_joining_and_leaving(
    w: WorldView,
    v4: Ipv4Addr,
    interface: Ipv4Addr,
    v6: Ipv6Addr,
    index: u32,
    group: IpAddr,
    member: SocketAddr,
    joining: Result<(), Error>,
)
    ensures
        (udp::joining_v4(v4, interface) is Ok) == (is_group(IpAddr::V4(v4)) && (is_any(
            IpAddr::V4(interface),
        ) || is_self(IpAddr::V4(interface)))),
        !is_group(IpAddr::V4(v4)) ==> udp::joining_v4(v4, interface) == Err::<(), Error>(
            Error { kind: ErrorKind::InvalidInput, cause: Cause::NotMulticast },
        ),
        (udp::joining_v6(v6, index) is Ok) == (is_group(IpAddr::V6(v6)) && index == 0),
        index != 0 ==> udp::joining_v6(v6, index) == Err::<(), Error>(
            Error {
                kind: ErrorKind::AddrNotAvailable,
                cause: Cause::InterfaceIndexNotSupported(index),
            },
        ),
        (udp::leaving(w, joining, group, member) is Ok) == (joining is Ok && {
            let g = SocketAddr { ip: group, port: member.port };
            w.groups.contains_key(g) && w.groups[g].contains(member)
        }),
        joining is Err ==> udp::leaving(w, joining, group, member) == joining,
{
    law_kinds_of_addresses(IpAddr::V4(v4));
    law_kinds_of_addresses(IpAddr::V4(interface));
    law_kinds_of_addresses(IpAddr::V6(v6));
}

/// Closing a socket of the host that runs frees its address and its descriptor; no other socket
/// and no other host changes.
pub proof fn law_socket_of_the_running_host_is_closed(w: WorldView, fd: Fd, a: IpAddr, other: Fd)
    requires
        w.current == Some(a),
        w.hosts.contains_key(a),
    ensures
        ({
            let after = tcp::closed(w, fd);
            let (x, y) = (w.hosts[a], after.hosts[a]);
            &&& !y.tcp.binds.contains_key(fd) && !y.tcp.sockets.contains_key(fd)
            &&& other != fd ==> {
                &&& y.tcp.binds.contains_key(other) == x.tcp.binds.contains_key(other)
                &&& x.tcp.binds.contains_key(other) ==> y.tcp.binds[other] == x.tcp.binds[other]
                &&& y.tcp.sockets.contains_key(other) == x.tcp.sockets.contains_key(other)
                &&& x.tcp.sockets.contains_key(other) ==> y.tcp.sockets[other]
                    == x.tcp.sockets[other]
            }
            &&& forall|s: SocketAddr|
                x.tcp.fds.contains_key(s) && x.tcp.fds[s] != fd ==> #[trigger] y.tcp.fds.contains_key(
                    s,
                ) && y.tcp.fds[s] == x.tcp.fds[s]
            &&& x.tcp.binds.contains_key(fd) && x.tcp.fds.contains_key(x.tcp.binds[fd].addr)
                && x.tcp.fds[x.tcp.binds[fd].addr] == fd ==> !y.tcp.fds.contains_key(
                x.tcp.binds[fd].addr,
            )
            &&& !x.tcp.binds.contains_key(fd) && x.tcp.sockets.contains_key(fd)
                && x.tcp.fds.contains_key(x.tcp.sockets[fd]) && x.tcp.fds[x.tcp.sockets[fd]] == fd
                ==> !y.tcp.fds.contains_key(x.tcp.sockets[fd])
            &&& (y.addr, y.udp, y.timer, y.next_port, y.ports, y.overflow) == (
                x.addr,
                x.udp,
                x.timer,
                x.next_port,
                x.ports,
                x.overflow,
            )
            &&& y.tcp.capacity == x.tcp.capacity && y.tcp.next_fd == x.tcp.next_fd
            &&& after.hosts == w.hosts.insert(a, y)
            &&& (after.order, after.topology, after.dns, after.groups, after.current) == (
                w.order,
                w.topology,
                w.dns,
                w.groups,
                w.current,
            )
        }),
{
}

/// Whether what a socket sends to groups comes back is set for the socket on the port alone.
pub proof fn law_what_comes_back_to_a_socket(w: WorldView, port: u16, on: bool, a: IpAddr)
    requires
        w.current == Some(a),
        w.hosts.contains_key(a),
    ensures
        ({
            let after = udp::looped(w, port, on);
            let (x, y) = (w.hosts[a], after.hosts[a]);
            &&& !x.udp.binds.contains_key(port) ==> after == w
            &&& x.udp.binds.contains_key(port) ==> {
                let (b, c) = (x.udp.binds[port], y.udp.binds[port]);
                &&& c.multicast_loop == on
                &&& (c.addr, c.queue, c.broadcast) == (b.addr, b.queue, b.broadcast)
                &&& y.udp.binds == x.udp.binds.insert(port, c) && y.udp.capacity == x.udp.capacity
                &&& (y.addr, y.tcp, y.timer, y.next_port, y.ports, y.overflow) == (
                    x.addr,
                    x.tcp,
                    x.timer,
                    x.next_port,
                    x.ports,
                    x.overflow,
                )
                &&& after.hosts == w.hosts.insert(a, y)
                &&& (after.order, after.topology, after.dns, after.groups, after.current) == (
                    w.order,
                    w.topology,
                    w.dns,
                    w.groups,
                    w.current,
                )
            }
        }),
{
}

/// A task that waits at a listener is noted there, and the requests that wait stay.
pub proof fn law_task_waits_at_a_listener(v: TcpView, fd: Fd, waker: u64)
    requires
        v.binds.contains_key(fd),
    ensures
        ({
            let after = v.waiting(fd, waker);
            &&& after.binds == v.binds.insert(fd, after.binds[fd])
            &&& after.binds[fd].waker == Some(waker)
            &&& after.binds[fd].addr == v.binds[fd].addr && after.binds[fd].queue
                == v.binds[fd].queue
            &&& (after.fds, after.sockets, after.capacity, after.next_fd) == (
                v.fds,
                v.sockets,
                v.capacity,
                v.next_fd,
            )
        }),
{
}

/// A request is pending where it is on its way on a link, is ready on one for a host at its end,
/// or waits at a listener of a host.
pub proof fn law_requests_that_are_pending(w: WorldView, ack: u64)
    ensures
        ({
            let request = Packet::Syn(Syn { ack });
            let sent = exists|p: Pair, i: int|
                w.topology.links.contains_key(p) && 0 <= i < w.topology.links[p].sent.len()
                    && (#[trigger] w.topology.links[p].sent[i]).packet == request;
            let ready = exists|p: Pair, a: IpAddr, i: int|
                w.topology.links.contains_key(p) && (a == w.topology.links[p].pair.0 || a
                    == w.topology.links[p].pair.1) && 0 <= i < w.topology.links[p].ready[a].len()
                    && (#[trigger] w.topology.links[p].ready[a][i]).packet == request;
            let waits = exists|a: IpAddr, fd: Fd, i: int|
                w.hosts.contains_key(a) && w.hosts[a].tcp.binds.contains_key(fd) && 0 <= i
                    < w.hosts[a].tcp.binds[fd].queue.len()
                    && (#[trigger] w.hosts[a].tcp.binds[fd].queue[i]).0.ack == ack;
            w.is_pending(ack) == (sent || ready || waits)
        }),
{
    let request = Packet::Syn(Syn { ack });
    let links = w.topology.links;
    if w.is_pending(ack) {
        if w.topology.carries(ack) {
            let p = choose|p: Pair| #[trigger] links.contains_key(p) && links[p].carries(ack);
            let l = links[p];
            if exists|i: int| 0 <= i < l.sent.len() && (#[trigger] l.sent[i]).packet == request {
                let i = choose|i: int|
                    0 <= i < l.sent.len() && (#[trigger] l.sent[i]).packet == request;
                assert(links[p].sent[i].packet == request);
            } else {
                let a = if top::has_request(l.ready[l.pair.0], ack) {
                    l.pair.0
                } else {
                    l.pair.1
                };
                let i = choose|i: int|
                    0 <= i < l.ready[a].len() && (#[trigger] l.ready[a][i]).packet == request;
                assert(links[p].ready[a][i].packet == request);
            }
        } else {
            let a = choose|a: IpAddr| #[trigger]
                w.hosts.contains_key(a) && w.hosts[a].tcp.holds(ack);
            let v = w.hosts[a].tcp;
            let fd = choose|fd: Fd| #[trigger]
                v.binds.contains_key(fd) && kernel::has_request(v.binds[fd].queue, ack);
            let q = v.binds[fd].queue;
            let i = choose|i: int| 0 <= i < q.len() && (#[trigger] q[i]).0.ack == ack;
            assert(w.hosts[a].tcp.binds[fd].queue[i].0.ack == ack);
        }
    }
    if exists|p: Pair, i: int|
        links.contains_key(p) && 0 <= i < links[p].sent.len() && (#[trigger] links[p].sent[i]).packet
            == request {
        let (p, i) = choose|p: Pair, i: int|
            links.contains_key(p) && 0 <= i < links[p].sent.len() && (
            #[trigger] links[p].sent[i]).packet == request;
        assert(links[p].carries(ack));
    }
    if exists|p: Pair, a: IpAddr, i: int|
        links.contains_key(p) && (a == links[p].pair.0 || a == links[p].pair.1) && 0 <= i
            < links[p].ready[a].len() && (#[trigger] links[p].ready[a][i]).packet == request {
        let (p, a, i) = choose|p: Pair, a: IpAddr, i: int|
            links.contains_key(p) && (a == links[p].pair.0 || a == links[p].pair.1) && 0 <= i
                < links[p].ready[a].len() && (#[trigger] links[p].ready[a][i]).packet == request;
        assert(top::has_request(links[p].ready[a], ack));
        assert(links[p].carries(ack));
    }
    if exists|a: IpAddr, fd: Fd, i: int|
        w.hosts.contains_key(a) && w.hosts[a].tcp.binds.contains_key(fd) && 0 <= i
            < w.hosts[a].tcp.binds[fd].queue.len() && (
        #[trigger] w.hosts[a].tcp.binds[fd].queue[i]).0.ack == ack {
        let (a, fd, i) = choose|a: IpAddr, fd: Fd, i: int|
            w.hosts.contains_key(a) && w.hosts[a].tcp.binds.contains_key(fd) && 0 <= i
                < w.hosts[a].tcp.binds[fd].queue.len() && (
            #[trigger] w.hosts[a].tcp.binds[fd].queue[i]).0.ack == ack;
        assert(kernel::has_request(w.hosts[a].tcp.binds[fd].queue, ack));
        assert(w.hosts[a].tcp.holds(ack));
    }
}

} // verus!
