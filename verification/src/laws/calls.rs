//! Laws of calls: what a call of an operation on the network, its sockets or the simulation gives
//! and leaves behind.
use crate::addr::{IpAddr, SocketAddr};
use crate::dns::{ToIpAddr, ToIpAddrs, ToSocketAddrs};
use crate::envelope::{EnvelopeView, Packet, Protocol, Segment, Syn};
use crate::error::{Cause, Error, ErrorKind};
use crate::kernel::Fd;
use crate::laws::links;
use crate::laws::simulation;
use crate::laws::sockets;
use crate::net::groups;
use crate::net::stream;
use crate::net::stream::{Arrival, Poll, SequencedSegment, TcpStream};
use crate::net::tcp;
use crate::net::tcp::{Connecting, TcpListener};
use crate::net::udp;
use crate::net::udp::UdpSocket;
use crate::partition_logger::{PartitionLogger, RepairReport};
use crate::rt::{Role, Rt, TaskEnd};
use crate::sim::Sim;
use crate::time::Duration;
use crate::top;
use crate::top::{DeliveryStatus, Fate, LinkAction, Pair, SentView, Topology};
use crate::world;
use crate::world::World;
use vstd::prelude::*;

verus! {

/// When the time of a network moves on, what a link has ready for a host is what it had, and
/// behind that all messages to the host that are due by now, in the order in which they were
/// sent. The others stay on the link.
pub proof fn law_call_of_tick_by(t: &mut Topology, duration: Duration, p: Pair, a: IpAddr)
    requires
        old(t)@.now.nanos + duration.nanos <= u128::MAX,
        call_ensures(Topology::tick_by, (t, duration), ()),
        old(t)@.links.contains_key(p),
    ensures
        ({
            let now = old(t)@.now.nanos + duration.nanos;
            let (l, m) = (old(t)@.links[p], final(t)@.links[p]);
            &&& final(t)@.now.nanos == now && final(t)@.links.dom() == old(t)@.links.dom()
            &&& m.ready[a] == l.ready[a] + l.sent.filter(
                |m: SentView|
                    m.dst.ip == a && m.status is DeliverAfter && m.status->DeliverAfter_0.nanos
                        <= now,
            ).map_values(|m: SentView| EnvelopeView { src: m.src, dst: m.dst, packet: m.packet })
            &&& m.sent == l.sent.filter(
                |m: SentView|
                    !(m.status is DeliverAfter && m.status->DeliverAfter_0.nanos <= now),
            )
            &&& m.state_a_b == l.state_a_b && m.state_b_a == l.state_b_a && m.latency == l.latency
        }),
{
    links::law_due_messages_arrive_in_order(old(t)@, duration, p, a);
}

/// A message between hosts without a link is refused and changes nothing. One between hosts with
/// a link is not, and changes no other link; where a direction is healthy and chance breaks the
/// link both are broken.
pub proof fn law_call_of_enqueue_message(
    t: &mut Topology,
    fate: Fate,
    src: SocketAddr,
    dst: SocketAddr,
    message: Protocol,
    r: Result<(), Error>,
    p: Pair,
)
    requires
        src.ip != dst.ip,
        call_ensures(Topology::enqueue_message, (t, fate, src, dst, message), r),
    ensures
        ({
            let q = top::pair(src.ip, dst.ip);
            let linked = old(t)@.links.contains_key(q);
            let (l, m) = (old(t)@.links[q], final(t)@.links[q]);
            &&& r is Ok <==> linked
            &&& r is Err ==> final(t)@ == old(t)@ && r == Err::<(), Error>(
                Error { kind: ErrorKind::ConnectionRefused, cause: Cause::Refused },
            )
            &&& final(t)@.links.dom() == old(t)@.links.dom()
            &&& p != Pair(src.ip, dst.ip) && p != Pair(dst.ip, src.ip) && old(t)@.links.contains_key(
                p,
            ) ==> final(t)@.links[p] == old(t)@.links[p]
            &&& linked && (l.state_a_b is Healthy || l.state_b_a is Healthy) && fate.fail
                ==> m.state_a_b is RandPartition && m.state_b_a is RandPartition
            &&& linked && !fate.fail && !fate.repair ==> m.state_a_b == l.state_a_b && m.state_b_a
                == l.state_b_a
        }),
{
    if old(t)@.linked(src.ip, dst.ip) {
        links::law_message_uses_its_link(old(t)@, fate, src, dst, message@, p);
    }
}

/// What is done to the links between some hosts and others is done to the link of each of the
/// one with each of the others.
pub proof fn law_call_of_for_pairs(
    w: &mut World,
    action: LinkAction,
    a: &Vec<IpAddr>,
    b: &Vec<IpAddr>,
    i: int,
    j: int,
)
    requires
        call_ensures(World::for_pairs, (w, action, a, b), ()),
        0 <= i < a@.len(),
        0 <= j < b@.len(),
        a@[i] != b@[j],
        old(w)@.topology.links.contains_key(top::pair(a@[i], b@[j])),
    ensures
        ({
            let p = top::pair(a@[i], b@[j]);
            let (l, m) = (old(w)@.topology.links[p], final(w)@.topology.links[p]);
            let direction = if p.0 == a@[i] {
                m.state_a_b
            } else {
                m.state_b_a
            };
            &&& match action {
                LinkAction::Hold => m.state_a_b is Hold && m.state_b_a is Hold,
                LinkAction::Release => m.state_a_b is Healthy && m.state_b_a is Healthy,
                LinkAction::Partition => m.state_a_b is ExplicitPartition
                    && m.state_b_a is ExplicitPartition,
                LinkAction::Repair => m.state_a_b is Healthy && m.state_b_a is Healthy,
                LinkAction::PartitionOneway => direction is ExplicitPartition,
                LinkAction::RepairOneway => direction is Healthy,
                LinkAction::SetLatency(value) => m.latency matches Some(t)
                    && t.min_message_latency == value && t.max_message_latency == value,
                LinkAction::SetMaxLatency(value) => m.latency matches Some(t)
                    && t.max_message_latency == value,
            }
            &&& m.sent.len() == l.sent.len() && m.ready == l.ready
            &&& action is Release ==> forall|k: int|
                0 <= k < l.sent.len() && l.sent[k].status is Hold ==> (
                #[trigger] m.sent[k]).status == DeliveryStatus::DeliverAfter(l.now)
            &&& (final(w)@.hosts, final(w)@.order, final(w)@.dns, final(w)@.groups) == (
                old(w)@.hosts,
                old(w)@.order,
                old(w)@.dns,
                old(w)@.groups,
            )
        }),
{
    links::law_action_reaches_every_pair(old(w)@, action, a@, b@, i, j);
}

/// A crash of some hosts stops the software of each and of no other, and says whose was running.
pub proof fn law_call_of_crash<T: ToIpAddrs>(
    sim: &mut Sim,
    addrs: &T,
    r: Vec<IpAddr>,
    a: IpAddr,
)
    requires
        call_ensures(Sim::crash::<T>, (sim, addrs), r),
        forall|i: int|
            #![trigger addrs.resolved_all(old(sim)@.world.dns)[i]]
            0 <= i < addrs.resolved_all(old(sim)@.world.dns).len() ==> old(sim)@.rts.contains_key(
                addrs.resolved_all(old(sim)@.world.dns)[i],
            ),
    ensures
        ({
            let hosts = addrs.resolved_all(old(sim)@.world.dns);
            let (x, y) = (old(sim)@.rts, final(sim)@.rts);
            &&& hosts.contains(a) ==> !y[a].running && y[a].role == x[a].role
            &&& !hosts.contains(a) && x.contains_key(a) ==> y[a] == x[a]
            &&& r@.contains(a) <==> hosts.contains(a) && x[a].running
            &&& r@.no_duplicates()
            &&& final(sim)@.world.hosts == old(sim)@.world.hosts
            &&& final(sim)@.world.topology == old(sim)@.world.topology
            &&& final(sim)@.elapsed == old(sim)@.elapsed && final(sim)@.steps == old(sim)@.steps
        }),
{
    let hosts = addrs.resolved_all(old(sim)@.world.dns);
    simulation::law_named_hosts_are_stopped_or_started(old(sim)@, hosts, false, a);
    simulation::law_crash_cancels_running_software(old(sim)@, hosts, a);
}

/// A bounce of some hosts has the software of each run, and of no other.
pub proof fn law_call_of_bounce<T: ToIpAddrs>(
    sim: &mut Sim,
    addrs: &T,
    r: Vec<IpAddr>,
    a: IpAddr,
)
    requires
        call_ensures(Sim::bounce::<T>, (sim, addrs), r),
        forall|i: int|
            #![trigger addrs.resolved_all(old(sim)@.world.dns)[i]]
            0 <= i < addrs.resolved_all(old(sim)@.world.dns).len() ==> old(sim)@.rts.contains_key(
                addrs.resolved_all(old(sim)@.world.dns)[i],
            ),
    ensures
        ({
            let hosts = addrs.resolved_all(old(sim)@.world.dns);
            let (x, y) = (old(sim)@.rts, final(sim)@.rts);
            &&& hosts.contains(a) ==> y[a].running && y[a].role == x[a].role
            &&& !hosts.contains(a) && x.contains_key(a) ==> y[a] == x[a]
            &&& r@ == hosts
            &&& final(sim)@.world.hosts == old(sim)@.world.hosts
            &&& final(sim)@.world.topology == old(sim)@.world.topology
        }),
{
    let hosts = addrs.resolved_all(old(sim)@.world.dns);
    simulation::law_named_hosts_are_stopped_or_started(old(sim)@, hosts, true, a);
}

/// A step begins with the network's time moving on by the length of a step. The hosts whose
/// software runs have their turn, in their order unless that is left to chance; the others keep
/// up with the time.
pub proof fn law_call_of_begin_step(sim: &mut Sim, r: (Vec<IpAddr>, Vec<IpAddr>))
    requires
        call_ensures(Sim::begin_step, (sim,), r),
    ensures
        ({
            let v = old(sim)@;
            let running = v.order.filter(|a: IpAddr| v.rts[a].running);
            &&& !v.config.random_node_order ==> r.0@ == running
            &&& v.config.random_node_order ==> r.0@.to_multiset() == running.to_multiset()
            &&& r.1@ == v.order.filter(|a: IpAddr| !v.rts[a].running)
            &&& final(sim)@.world.topology == v.world.topology.ticked(v.config.tick)
            &&& final(sim)@.world.hosts == v.world.hosts && final(sim)@.rts == v.rts
            &&& final(sim)@.elapsed == v.elapsed && final(sim)@.steps == v.steps
        }),
{
    simulation::law_hosts_have_their_turn(old(sim)@);
}

/// After its turn a host's time has moved on by the length of a step, unless its software failed,
/// which gives the error. Its software runs on where it did not end. The turn says that all is
/// finished, unless a client's software runs on.
pub proof fn law_call_of_leave_host(
    sim: &mut Sim,
    addr: IpAddr,
    end: Option<TaskEnd>,
    r: Result<bool, Error>,
)
    requires
        call_ensures(Sim::leave_host, (sim, addr, end), r),
        old(sim)@.rts.contains_key(addr),
        old(sim)@.rts[addr].running,
        old(sim)@.world.hosts.contains_key(addr),
        old(sim)@.world.hosts[addr].timer.elapsed.nanos + old(sim)@.config.tick.nanos
            <= u128::MAX,
    ensures
        ({
            let (v, w) = (old(sim)@, final(sim)@);
            let rt = v.rts[addr];
            &&& w.rts == v.rts.insert(addr, Rt { role: rt.role, running: end is None })
            &&& r is Err <==> end == Some(TaskEnd::Failed)
            &&& r matches Ok(done) ==> (done <==> end is Some || !(rt.role is Client))
            &&& r is Ok ==> w.world.hosts[addr].timer.elapsed.nanos
                == v.world.hosts[addr].timer.elapsed.nanos + v.config.tick.nanos
                && w.world.current is None
            &&& w.world.topology == v.world.topology && w.elapsed == v.elapsed
        }),
{
}

/// A step ends with the simulation's time moved on by its length and one step more. The hosts
/// without running software keep up. Beyond the duration of the simulation it fails, unless all
/// is finished.
pub proof fn law_call_of_end_step(
    sim: &mut Sim,
    stopped: &Vec<IpAddr>,
    is_finished: bool,
    r: Result<bool, Error>,
    a: IpAddr,
)
    requires
        call_ensures(Sim::end_step, (sim, stopped, is_finished), r),
        old(sim)@.has_time(),
        stopped@.no_duplicates(),
        forall|k: int|
            0 <= k < stopped@.len() ==> old(sim)@.world.hosts.contains_key(#[trigger] stopped@[k])
                && old(sim)@.world.hosts[stopped@[k]].timer.elapsed.nanos
                + old(sim)@.config.tick.nanos <= u128::MAX,
    ensures
        ({
            let (v, w) = (old(sim)@, final(sim)@);
            let now = v.elapsed.nanos + v.config.tick.nanos;
            &&& w.elapsed.nanos == now && w.steps == v.steps + 1
            &&& r is Err <==> now > v.config.duration.nanos && !is_finished
            &&& r matches Err(e) ==> e == (Error {
                kind: ErrorKind::Other,
                cause: Cause::DurationExceeded,
            })
            &&& r matches Ok(done) ==> done == is_finished
            &&& stopped@.contains(a) ==> w.world.hosts[a].timer.elapsed.nanos
                == v.world.hosts[a].timer.elapsed.nanos + v.config.tick.nanos
            &&& !stopped@.contains(a) && v.world.hosts.contains_key(a) ==> w.world.hosts[a]
                == v.world.hosts[a]
            &&& w.rts == v.rts && w.world.topology == v.world.topology
        }),
{
    simulation::law_step_adds_its_time(old(sim)@, stopped@, a);
}

/// A read of a stream gives what is left from before, or else what has come in, as much as there
/// is room for, and keeps the rest; nothing once the peer has ended, and an error once it has
/// reset the connection.
pub proof fn law_call_of_poll_read(
    s: &mut TcpStream,
    room: usize,
    arrival: Arrival,
    r: Poll<Result<Vec<u8>, Error>>,
)
    requires
        call_ensures(TcpStream::poll_read, (s, room, arrival), r),
    ensures
        ({
            let (v, w) = (old(s)@, final(s)@);
            let reads = !v.is_closed && room > 0;
            let fresh = reads && v.rest.len() == 0;
            &&& w.pair == v.pair && w.is_shutdown == v.is_shutdown
            &&& !reads ==> w == v && (r matches Poll::Ready(Ok(out)) && out@.len() == 0)
            &&& reads && v.rest.len() > 0 ==> gives(r, v.rest, room, w.rest) && w.is_closed
                == v.is_closed
            &&& fresh && arrival is Pending ==> r is Pending && w == v
            &&& fresh && arrival is Closed ==> w == v && (r matches Poll::Ready(Err(e)) && e == (
            Error { kind: ErrorKind::ConnectionReset, cause: Cause::Reset }))
            &&& fresh && arrival == Arrival::Segment(SequencedSegment::Fin) ==> w.is_closed && (
            r matches Poll::Ready(Ok(out)) && out@.len() == 0)
            &&& arrival matches Arrival::Segment(SequencedSegment::Data(data)) ==> (fresh
                ==> gives(r, data@, room, w.rest) && w.is_closed == v.is_closed)
        }),
{
    let rest = old(s)@.rest;
    let n = stream::least(rest.len(), room as nat) as int;
    assert(rest.take(n) + rest.skip(n) =~= rest);
    if let Arrival::Segment(SequencedSegment::Data(data)) = arrival {
        let m = stream::least(data@.len(), room as nat) as int;
        assert(data@.take(m) + data@.skip(m) =~= data@);
    }
}

/// Whether a read gives the first of the bytes, as many as there are or there is room for, and
/// leaves the rest.
pub open spec fn gives(
    r: Poll<Result<Vec<u8>, Error>>,
    bytes: Seq<u8>,
    room: usize,
    rest: Seq<u8>,
) -> bool {
    &&& r matches Poll::Ready(Ok(out))
    &&& out@ + rest == bytes
    &&& out@.len() <= room
    &&& out@.len() == room || rest.len() == 0
}

/// A write to a stream sends all its bytes under the next number, unless there are none; and
/// fails once the stream is shut down or the connection is gone.
pub proof fn law_call_of_poll_write(
    s: &TcpStream,
    buf: &[u8],
    seq: Option<u64>,
    r: (Result<usize, Error>, Option<Segment>),
)
    requires
        call_ensures(TcpStream::poll_write, (s, buf, seq), r),
    ensures
        ({
            let open = !s.is_shutdown && seq is Some;
            &&& buf@.len() == 0 ==> r.0 == Ok::<usize, Error>(0) && r.1 is None
            &&& buf@.len() > 0 && open ==> r.0 == Ok::<usize, Error>(buf@.len() as usize) && (
            r.1 matches Some(Segment::Data(n, data)) && Some(n) == seq && data@ == buf@)
            &&& buf@.len() > 0 && !open ==> r.0 == Err::<usize, Error>(
                Error { kind: ErrorKind::BrokenPipe, cause: Cause::ClosedForWrites },
            ) && r.1 is None
        }),
{
}

/// A stream is shut down once: the end is sent under the next number. A second time is refused.
pub proof fn law_call_of_poll_shutdown(
    s: &mut TcpStream,
    seq: Option<u64>,
    r: (Result<(), Error>, Option<Segment>),
)
    requires
        call_ensures(TcpStream::poll_shutdown, (s, seq), r),
    ensures
        r.0 is Ok <==> !old(s)@.is_shutdown && seq is Some,
        r.0 is Ok ==> final(s)@.is_shutdown && (r.1 matches Some(Segment::Fin(n)) && Some(n)
            == seq),
        r.0 is Err ==> final(s)@ == old(s)@ && r.1 is None,
        old(s)@.is_shutdown ==> r.0 == Err::<(), Error>(
            Error { kind: ErrorKind::NotConnected, cause: Cause::Unconnected },
        ),
        final(s)@.rest == old(s)@.rest && final(s)@.is_closed == old(s)@.is_closed,
{
}

/// A listener accepts the oldest request that waits, if its peer still wants it; one that is not
/// wanted any more is dropped. Where none waits the task does.
pub proof fn law_call_of_poll_accept(
    l: &TcpListener,
    w: &mut World,
    waker: u64,
    acked: bool,
    r: Option<(tcp::TcpStream, SocketAddr)>,
    a: IpAddr,
)
    requires
        call_ensures(TcpListener::poll_accept, (l, w, waker, acked), r),
        old(w)@.current == Some(a),
        old(w)@.hosts.contains_key(a),
        old(w)@.hosts[a].tcp.binds.contains_key(l.fd),
    ensures
        ({
            let (x, y) = (old(w)@.hosts[a].tcp, final(w)@.hosts[a].tcp);
            let queue = x.binds[l.fd].queue;
            &&& r is Some <==> queue.len() > 0 && acked
            &&& r matches Some((s, from)) ==> {
                &&& from == queue[0].1 && s.remote == queue[0].1
                &&& s.fd == Fd(x.next_fd)
                &&& s.local.port == x.binds[l.fd].addr.port
            }
            &&& y.binds.contains_key(l.fd)
            &&& queue.len() > 0 ==> y.binds[l.fd].queue == queue.subrange(1, queue.len() as int)
            &&& queue.len() == 0 ==> y.binds[l.fd].queue == queue
            &&& r is None ==> y.binds[l.fd].waker == Some(waker)
            &&& y.binds[l.fd].addr == x.binds[l.fd].addr
            &&& final(w)@.topology == old(w)@.topology && final(w)@.order == old(w)@.order
        }),
{
    let x = old(w)@.hosts[a].tcp;
    let queue = x.binds[l.fd].queue;
    if queue.len() > 0 {
        assert(queue.skip(1) =~= queue.subrange(1, queue.len() as int));
    }
}

/// Asking for a connection gives the host a socket with the next descriptor, and sends a request
/// with the number to the peer, unless that is the host itself or no host has the address; the
/// last is refused.
pub proof fn law_call_of_connect<A: ToSocketAddrs>(
    w: &mut World,
    addr: &A,
    ack: u64,
    fate: Fate,
    r: Result<Connecting, Error>,
    a: IpAddr,
    dst: SocketAddr,
)
    requires
        call_ensures(tcp::TcpStream::connect::<A>, (w, addr, ack, fate), r),
        old(w)@.current == Some(a),
        old(w)@.hosts.contains_key(a),
        addr.resolved_socket(old(w)@.dns) == Ok::<SocketAddr, Error>(dst),
    ensures
        ({
            let h = old(w)@.hosts[a];
            let own = dst.ip.loopback() || dst.ip == h.addr;
            let linked = old(w)@.topology.links.contains_key(top::pair(h.addr, dst.ip));
            &&& r is Ok <==> own || linked
            &&& r is Err ==> r == Err::<Connecting, Error>(
                Error { kind: ErrorKind::ConnectionRefused, cause: Cause::Refused },
            ) && final(w)@.topology == old(w)@.topology
            &&& r matches Ok(c) ==> {
                &&& c.fd == Fd(h.tcp.next_fd) && c.dst == dst && c.ack == ack && c.loopback == own
                &&& c.local.port == h.free_port()
                &&& dst.ip.loopback() ==> c.local.ip == dst.ip
                &&& !dst.ip.loopback() ==> c.local.ip == h.addr
                &&& own ==> final(w)@.topology == old(w)@.topology
                &&& !own ==> final(w)@.topology == old(w)@.topology.enqueued(
                    fate,
                    c.local,
                    dst,
                    Packet::Syn(Syn { ack }),
                )
            }
        }),
{
}

/// Binding a listener or a datagram socket fails where the address stands for none of the host's
/// own or is taken. Otherwise the socket has the address, with a free port where none is asked
/// for.
pub proof fn law_calls_that_bind<A: ToSocketAddrs>(
    w: &mut World,
    u: &mut World,
    addr: &A,
    r: Result<TcpListener, Error>,
    s: Result<UdpSocket, Error>,
    a: IpAddr,
    at: SocketAddr,
)
    requires
        call_ensures(TcpListener::bind::<A>, (w, addr), r),
        call_ensures(UdpSocket::bind::<A>, (u, addr), s),
        old(w)@.current == Some(a) && old(w)@.hosts.contains_key(a),
        old(u)@.current == Some(a) && old(u)@.hosts.contains_key(a),
        addr.resolved_socket(old(w)@.dns) == Ok::<SocketAddr, Error>(at),
        addr.resolved_socket(old(u)@.dns) == Ok::<SocketAddr, Error>(at),
    ensures
        ({
            let own = sockets::is_any(at.ip) || sockets::is_self(at.ip);
            let (h, g) = (old(w)@.hosts[a], old(u)@.hosts[a]);
            let fixed = at.port != 0;
            &&& !own ==> r == Err::<TcpListener, Error>(
                Error { kind: ErrorKind::AddrNotAvailable, cause: Cause::AddressNotSupported(at) },
            ) && final(w)@ == old(w)@
            &&& !own ==> s is Err && final(u)@ == old(u)@
            &&& own && fixed ==> (r is Ok <==> !h.tcp.fds.contains_key(at))
            &&& own && fixed ==> (s is Ok <==> !g.udp.binds.contains_key(at.port))
            &&& own && fixed && r is Ok ==> r->Ok_0.addr == at
            &&& own && fixed && s is Ok ==> s->Ok_0.local_addr == at
            &&& own && !fixed && r is Ok ==> r->Ok_0.addr == (SocketAddr {
                ip: at.ip,
                port: h.free_port(),
            })
            &&& own && !fixed && s is Ok ==> s->Ok_0.local_addr == (SocketAddr {
                ip: at.ip,
                port: g.free_port(),
            })
            &&& r matches Ok(l) ==> l.fd == Fd(h.tcp.next_fd)
                && final(w)@.hosts[a].tcp.binds.contains_key(l.fd)
                && final(w)@.hosts[a].tcp.binds[l.fd].addr == l.addr
            &&& s matches Ok(l) ==> final(u)@.hosts[a].udp.binds.contains_key(l.local_addr.port)
                && final(u)@.hosts[a].udp.binds[l.local_addr.port].addr == l.local_addr
                && final(u)@.hosts[a].udp.binds[l.local_addr.port].queue.len() == 0
        }),
{
    sockets::law_kinds_of_addresses(at.ip);
}

/// Reading a datagram gives the one in the socket's buffer, or else the oldest on its port, which
/// leaves the queue. As many bytes as there is room for are copied; the rest are lost.
pub proof fn law_call_of_try_recv_from(
    s: &mut UdpSocket,
    w: &mut World,
    buf: &mut [u8],
    r: Result<(usize, SocketAddr), Error>,
    a: IpAddr,
    k: int,
)
    requires
        call_ensures(UdpSocket::try_recv_from, (s, w, buf), r),
        old(w)@.current == Some(a) && old(w)@.hosts.contains_key(a),
        old(s).buffer is None,
        old(buf)@.len() <= usize::MAX,
    ensures
        ({
            let port = old(s).local_addr.port;
            let (x, y) = (old(w)@.hosts[a].udp.binds, final(w)@.hosts[a].udp.binds);
            let some = x.contains_key(port) && x[port].queue.len() > 0;
            &&& r is Ok <==> some
            &&& !some ==> r == Err::<(usize, SocketAddr), Error>(
                Error { kind: ErrorKind::WouldBlock, cause: Cause::QueueEmpty },
            ) && final(w)@ == old(w)@ && final(buf)@ == old(buf)@
            &&& r matches Ok((n, from)) ==> {
                let (data, origin) = x[port].queue[0];
                &&& from == origin
                &&& n <= data.len() && n <= old(buf)@.len() && (n == data.len() || n
                    == old(buf)@.len())
                &&& 0 <= k < n ==> final(buf)@[k] == data[k]
                &&& n <= k < old(buf)@.len() ==> final(buf)@[k] == old(buf)@[k]
                &&& y[port].queue == x[port].queue.subrange(1, x[port].queue.len() as int)
            }
        }),
{
    let port = old(s).local_addr.port;
    let x = old(w)@.hosts[a].udp.binds;
    if x.contains_key(port) && x[port].queue.len() > 0 {
        let q = x[port].queue;
        assert(q.skip(1) =~= q.subrange(1, q.len() as int));
        let n = r->Ok_0.0 as int;
        let data = q[0].0;
        assert(udp::next_datagram(*old(s), old(w)@) == q[0]);
        assert(final(buf)@ == data.take(n) + old(buf)@.skip(n));
        if 0 <= k < n {
            assert((data.take(n) + old(buf)@.skip(n))[k] == data[k]);
        }
    }
}

/// That messages between two hosts are dropped is new once, until it is repaired. The repair says
/// how long they were, and whether that was long.
pub proof fn law_calls_of_a_partition_logger(
    log: &mut PartitionLogger,
    later: &mut PartitionLogger,
    src: IpAddr,
    dst: IpAddr,
    now: Duration,
    new: bool,
    r: Option<RepairReport>,
)
    requires
        call_ensures(PartitionLogger::log_partition, (log, src, dst, now), new),
        call_ensures(PartitionLogger::log_repair, (later, src, dst, now), r),
    ensures
        ({
            let (p, v) = (top::pair(src, dst), old(log)@);
            &&& new <==> !v.since.contains_key(p)
            &&& new ==> final(log)@.since == v.since.insert(p, now)
            &&& !new ==> final(log)@ == v
            &&& final(log)@.threshold == v.threshold
        }),
        ({
            let (p, v) = (top::pair(src, dst), old(later)@);
            &&& r is Some <==> v.since.contains_key(p)
            &&& final(later)@.since == v.since.remove(p) && final(later)@.threshold == v.threshold
            &&& r matches Some(report) ==> {
                let start = v.since[p].nanos;
                &&& now.nanos >= start ==> report.duration.nanos == now.nanos - start
                &&& now.nanos < start ==> report.duration.nanos == 0
                &&& report.slow <==> report.duration.nanos >= v.threshold.nanos
            }
        }),
{
}

/// Where a host runs, its time is that of its steps and what its clock has moved on in this one;
/// the simulation's time is that and when the host came; and the time since the epoch is that and
/// the epoch. Where none runs the last two are not known.
pub proof fn law_calls_of_clocks(
    w: &World,
    clock: Duration,
    own: Duration,
    whole: Option<Duration>,
    epoch: Option<Duration>,
    a: IpAddr,
)
    requires
        w@.current == Some(a) && w@.hosts.contains_key(a),
        w@.hosts[a].timer.now matches Some(start) && start.nanos <= clock.nanos,
        call_ensures(world::elapsed, (w, clock), own),
        call_ensures(world::sim_elapsed, (Some(w), clock), whole),
        call_ensures(world::since_epoch, (Some(w), clock), epoch),
    ensures
        ({
            let t = w@.hosts[a].timer;
            let passed = t.elapsed.nanos + clock.nanos - t.now->0.nanos;
            &&& own.nanos == passed
            &&& whole matches Some(d) && d.nanos == passed + t.start_offset.nanos
            &&& epoch matches Some(d) && d.nanos == passed + t.start_offset.nanos + t.epoch.nanos
        }),
{
}

/// A datagram socket that is closed leaves its port and every group; other sockets stay.
pub proof fn law_call_of_close(s: UdpSocket, w: &mut World, a: IpAddr, port: u16)
    requires
        call_ensures(UdpSocket::close, (s, w), ()),
        old(w)@.current == Some(a) && old(w)@.hosts.contains_key(a),
    ensures
        ({
            let own = s.local_addr.port;
            let (x, y) = (old(w)@.hosts[a].udp.binds, final(w)@.hosts[a].udp.binds);
            &&& !y.contains_key(own)
            &&& port != own ==> y.contains_key(port) == x.contains_key(port)
            &&& port != own && x.contains_key(port) ==> y[port] == x[port]
            &&& final(w)@.hosts[a].tcp == old(w)@.hosts[a].tcp
            &&& final(w)@.topology == old(w)@.topology && final(w)@.dns == old(w)@.dns
            &&& final(w)@.groups == groups::left_all(old(w)@.groups, s.member(old(w)@))
        }),
{
}

/// Whether a socket may send to all hosts is set for a bound socket with an address of 32 bits,
/// and for no other socket.
pub proof fn law_call_of_set_broadcast(s: &UdpSocket, w: &mut World, on: bool, a: IpAddr, port: u16)
    requires
        call_ensures(UdpSocket::set_broadcast, (s, w, on), ()),
        old(w)@.current == Some(a) && old(w)@.hosts.contains_key(a),
    ensures
        ({
            let own = s.local_addr.port;
            let (x, y) = (old(w)@.hosts[a].udp.binds, final(w)@.hosts[a].udp.binds);
            &&& s.local_addr.ip is V4 && x.contains_key(own) ==> y[own].broadcast == on
                && y[own].queue == x[own].queue && y[own].multicast_loop == x[own].multicast_loop
            &&& !(s.local_addr.ip is V4) ==> final(w)@ == old(w)@
            &&& y.dom() == x.dom()
            &&& port != own && x.contains_key(port) ==> y[port] == x[port]
        }),
{
    let own = s.local_addr.port;
    let (x, y) = (old(w)@.hosts[a].udp.binds, final(w)@.hosts[a].udp.binds);
    assert(y.dom() =~= x.dom());
}

/// A name is added to the simulation with its software running, as a client or as a host.
pub proof fn law_calls_that_add<T: ToIpAddr>(
    sim: &mut Sim,
    other: &mut Sim,
    addr: &T,
    r: (Vec<u8>, IpAddr),
    s: (Vec<u8>, IpAddr),
)
    requires
        call_ensures(Sim::client::<T>, (sim, addr), r),
        call_ensures(Sim::host::<T>, (other, addr), s),
    ensures
        final(sim)@.rts.contains_key(r.1) && final(sim)@.rts[r.1].role is Client
            && final(sim)@.rts[r.1].running,
        final(other)@.rts.contains_key(s.1) && final(other)@.rts[s.1].role is Host
            && final(other)@.rts[s.1].running,
        r.0@ == addr.name_text() && s.0@ == addr.name_text(),
        final(sim)@.order == old(sim)@.order.push(r.1),
        final(other)@.order == old(other)@.order.push(s.1),
        addr.resolved(old(sim)@.world.dns) matches Some(a) ==> r.1 == a,
        addr.resolved(old(other)@.world.dns) matches Some(a) ==> s.1 == a,
        final(sim)@.world.hosts.contains_key(r.1) && final(other)@.world.hosts.contains_key(s.1),
{
    let (x, y) = (old(sim)@, old(other)@);
    simulation::law_new_host_starts_fresh(
        x,
        addr.name_text(),
        addr.resolved(x.world.dns),
        Rt { role: Role::Client, running: true },
    );
    simulation::law_new_host_starts_fresh(
        y,
        addr.name_text(),
        addr.resolved(y.world.dns),
        Rt { role: Role::Host, running: true },
    );
}

} // verus!
