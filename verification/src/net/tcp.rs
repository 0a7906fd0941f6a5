//! Sockets that listen for connections, and requests for connections.
use crate::addr::SocketAddr;
use crate::dns::ToSocketAddrs;
use crate::envelope::{Packet, Protocol, Segment, Syn};
use crate::error::{Cause, Error, ErrorKind};
use crate::host;
use crate::host::HostView;
use crate::kernel;
use crate::kernel::Fd;
use crate::net::stream::Poll;
use crate::net::udp;
use crate::top::Fate;
use crate::world::{World, WorldView};
use vstd::prelude::*;

verus! {

/// A socket that listens for connections.
#[derive(Clone, Copy, Debug, PartialEq, Eq, Structural)]
pub struct TcpListener {
    /// Its number.
    pub fd: Fd,
    /// The address that it listens at.
    pub addr: SocketAddr,
}

/// A connected socket.
#[derive(Clone, Copy, Debug, PartialEq, Eq, Structural)]
pub struct TcpStream {
    /// Its number.
    pub fd: Fd,
    /// Its address.
    pub local: SocketAddr,
    /// The address of its peer.
    pub remote: SocketAddr,
}

/// A connection that has been asked for and not been answered.
#[derive(Clone, Copy, Debug, PartialEq, Eq, Structural)]
pub struct Connecting {
    /// The number of the socket.
    pub fd: Fd,
    /// The address of the socket.
    pub local: SocketAddr,
    /// The address that is to be connected to.
    pub dst: SocketAddr,
    /// The number of the request.
    pub ack: u64,
    /// Whether the request stays within the host, which is to be handed it in the next step.
    pub loopback: bool,
}

impl TcpListener {
    /// Has a socket of the host that is running listen at the address. Port zero stands for a
    /// port of the host's choice.
    pub fn bind<A: ToSocketAddrs>(world: &mut World, addr: &A) -> (r: Result<TcpListener, Error>)
        requires
            old(world).wf(),
            old(world)@.current is Some,
            old(world)@.running().tcp.next_fd < u16::MAX,
            ({
                let a = addr.resolved_socket(old(world)@.dns);
                a is Ok && udp::is_supported(a->Ok_0.ip) ==> {
                    &&& (a->Ok_0.ip is V4) == (old(world)@.running().addr is V4)
                    &&& a->Ok_0.port == 0 ==> old(world)@.running().has_free_port()
                }
            }),
        ensures
            final(world).wf(),
            match addr.resolved_socket(old(world)@.dns) {
                Err(e) => r == Err::<TcpListener, Error>(e) && final(world)@ == old(world)@,
                Ok(a) => if !udp::is_supported(a.ip) {
                    &&& r == Err::<TcpListener, Error>(
                        Error {
                            kind: ErrorKind::AddrNotAvailable,
                            cause: Cause::AddressNotSupported(a),
                        },
                    )
                    &&& final(world)@ == old(world)@
                } else {
                    let (h, local) = udp::port_chosen(old(world)@.running(), a);
                    if h.tcp.fds.contains_key(local) {
                        &&& r == Err::<TcpListener, Error>(
                            Error {
                                kind: ErrorKind::AddrInUse,
                                cause: Cause::AddressInUse(local),
                            },
                        )
                        &&& final(world)@ == old(world)@.with_running(h)
                    } else {
                        &&& r == Ok::<TcpListener, Error>(
                            TcpListener { fd: Fd(h.tcp.next_fd), addr: local },
                        )
                        &&& final(world)@ == old(world)@.with_running(
                            HostView { tcp: h.tcp.bound(local), ..h },
                        )
                    }
                },
            },
    {
        let mut local = match addr.to_socket_addr(world.dns()) {
            Ok(a) => a,
            Err(e) => {
                return Err(e);
            },
        };
        match udp::verify_bind_addr(local) {
            Ok(_) => {},
            Err(e) => {
                return Err(e);
            },
        }
        let ghost start = world@;
        let ghost asked = local;
        let host = world.current_host_mut();
        if local.port == 0 {
            local.port = host.assign_ephemeral_port();
        }
        match host.tcp.bind(local) {
            Ok(fd) => Ok(TcpListener { fd, addr: local }),
            Err(e) => {
                assert(world@ =~= start.with_running(udp::port_chosen(start.running(), asked).0));
                Err(e)
            },
        }
    }

    /// The oldest request that waits at the socket, with its origin.
    pub fn front(&self, world: &World) -> (r: Option<(Syn, SocketAddr)>)
        requires
            world.wf(),
            world@.current is Some,
            world@.running().tcp.binds.contains_key(self.fd),
        ensures
            ({
                let queue = world@.running().tcp.binds[self.fd].queue;
                r == (if queue.len() > 0 {
                    Some(queue[0])
                } else {
                    None
                })
            }),
    {
        world.current_host().tcp.front(self.fd)
    }

    /// Accepts the oldest request that waits at the socket, where its origin has taken the
    /// acknowledgement. Where nothing is accepted the task waits for a further request.
    pub fn poll_accept(&self, world: &mut World, waker: u64, acked: bool) -> (r: Option<
        (TcpStream, SocketAddr),
    >)
        requires
            old(world).wf(),
            old(world)@.current is Some,
            old(world)@.running().tcp.binds.contains_key(self.fd),
            old(world)@.running().tcp.next_fd < u16::MAX,
        ensures
            final(world).wf(),
            ({
                let h = old(world)@.running();
                let bind = h.tcp.binds[self.fd];
                if bind.queue.len() == 0 {
                    &&& r is None
                    &&& final(world)@ == old(world)@.with_running(
                        HostView { tcp: h.tcp.waiting(self.fd, waker), ..h },
                    )
                } else if !acked {
                    &&& r is None
                    &&& final(world)@ == old(world)@.with_running(
                        HostView { tcp: h.tcp.taken(self.fd).waiting(self.fd, waker), ..h },
                    )
                } else {
                    let origin = bind.queue[0].1;
                    let local = kernel::accepted_at(bind.addr, origin, h.addr);
                    &&& r == Some(
                        (TcpStream { fd: Fd(h.tcp.next_fd), local, remote: origin }, origin),
                    )
                    &&& final(world)@ == old(world)@.with_running(
                        HostView { tcp: h.tcp.taken(self.fd).accepted(local), ..h },
                    )
                }
            }),
    {
        let host = world.current_host_mut();
        let addr = host.addr;
        match host.tcp.accept(self.fd, addr, waker, acked) {
            Some((fd, local, remote)) => Some((TcpStream { fd, local, remote }, remote)),
            None => None,
        }
    }

    /// The address that the socket listens at.
    pub fn local_addr(&self) -> (r: SocketAddr)
        ensures
            r == self.addr,
    {
        self.addr
    }

    /// Closes the socket. Requests that wait at it are dropped.
    pub fn close(self, world: &mut World)
        requires
            old(world).wf(),
            old(world)@.current is Some,
        ensures
            final(world).wf(),
            final(world)@ == closed(old(world)@, self.fd),
    {
        let host = world.current_host_mut();
        host.tcp.close(self.fd);
    }
}

/// The world with a socket of the host that is running closed.
pub open spec fn closed(w: WorldView, fd: Fd) -> WorldView {
    w.with_running(HostView { tcp: w.running().tcp.without(fd), ..w.running() })
}

/// The address of a socket that is to be connected: the host's, or the host itself where the
/// connection stays within it.
pub open spec fn local_for(h: HostView, dst: SocketAddr) -> SocketAddr {
    SocketAddr {
        ip: if dst.ip.loopback() {
            dst.ip
        } else {
            h.addr
        },
        port: h.free_port(),
    }
}

/// The host with a socket for the connection.
pub open spec fn with_socket(h: HostView, dst: SocketAddr) -> HostView {
    HostView {
        next_port: h.ports.after(h.free_port()),
        tcp: h.tcp.connected(local_for(h, dst)),
        ..h
    }
}

impl TcpStream {
    /// Asks for a connection to the address. The number tells the answer.
    pub fn connect<A: ToSocketAddrs>(world: &mut World, addr: &A, ack: u64, fate: Fate) -> (r: Result<
        Connecting,
        Error,
    >)
        requires
            old(world).wf(),
            old(world)@.current is Some,
            addr.resolved_socket(old(world)@.dns) is Ok ==> {
                let h = old(world)@.running();
                &&& h.tcp.next_fd < u16::MAX
                &&& h.has_free_port()
                &&& old(world)@.can_send(
                    h.addr,
                    addr.resolved_socket(old(world)@.dns)->Ok_0.ip,
                )
            },
        ensures
            final(world).wf(),
            match addr.resolved_socket(old(world)@.dns) {
                Err(e) => r == Err::<Connecting, Error>(e) && final(world)@ == old(world)@,
                Ok(dst) => {
                    let h = old(world)@.running();
                    let local = local_for(h, dst);
                    let w = old(world)@.with_running(with_socket(h, dst));
                    let fd = Fd(h.tcp.next_fd);
                    if host::stays_within(local, dst) {
                        &&& r == Ok::<Connecting, Error>(
                            Connecting { fd, local, dst, ack, loopback: true },
                        )
                        &&& final(world)@ == w
                    } else if w.topology.linked(local.ip, dst.ip) {
                        &&& r == Ok::<Connecting, Error>(
                            Connecting { fd, local, dst, ack, loopback: false },
                        )
                        &&& final(world)@ == w.sent(fate, local, dst, Packet::Syn(Syn { ack }))
                    } else {
                        &&& r == Err::<Connecting, Error>(
                            Error { kind: ErrorKind::ConnectionRefused, cause: Cause::Refused },
                        )
                        &&& final(world)@ == w
                    }
                },
            },
    {
        let dst = match addr.to_socket_addr(world.dns()) {
            Ok(a) => a,
            Err(e) => {
                return Err(e);
            },
        };
        let ghost start = world@;
        let host = world.current_host_mut();
        let port: u16 = host.assign_ephemeral_port();
        let mut local = SocketAddr::new(host.addr, port);
        if dst.ip.is_loopback() {
            local.ip = dst.ip;
        }
        let fd = host.tcp.connect(local);
        assert(world@ =~= start.with_running(with_socket(start.running(), dst)));
        if host::is_same(local, dst) {
            return Ok(Connecting { fd, local, dst, ack, loopback: true });
        }
        let syn = Protocol::Tcp(Segment::Syn(Syn { ack }));
        match world.send_message(fate, local, dst, syn) {
            Ok(_) => Ok(Connecting { fd, local, dst, ack, loopback: false }),
            Err(e) => Err(e),
        }
    }

    /// The address of the socket.
    pub fn local_addr(&self) -> (r: SocketAddr)
        ensures
            r == self.local,
    {
        self.local
    }

    /// The address of the socket's peer.
    pub fn peer_addr(&self) -> (r: SocketAddr)
        ensures
            r == self.remote,
    {
        self.remote
    }

    /// Closes the socket.
    pub fn close(self, world: &mut World)
        requires
            old(world).wf(),
            old(world)@.current is Some,
        ensures
            final(world).wf(),
            final(world)@ == closed(old(world)@, self.fd),
    {
        let host = world.current_host_mut();
        host.tcp.close(self.fd);
    }
}

impl Connecting {
    /// The connection, where the request was accepted. Where it was not the task waits as long
    /// as the request is in hand, on its way or in line; after that it is refused.
    pub fn poll(self, world: &World, accepted: bool, in_hand: bool) -> (r: Poll<
        Result<TcpStream, Error>,
    >)
        requires
            world.wf(),
        ensures
            r == (if !accepted && (in_hand || world@.is_pending(self.ack)) {
                Poll::Pending
            } else {
                Poll::Ready(self.outcome(accepted))
            }),
    {
        if !accepted && (in_hand || world.is_pending(self.ack)) {
            return Poll::Pending;
        }
        Poll::Ready(self.finish(accepted))
    }

    /// What the request comes to.
    pub open spec fn outcome(self, accepted: bool) -> Result<TcpStream, Error> {
        if accepted {
            Ok(TcpStream { fd: self.fd, local: self.local, remote: self.dst })
        } else {
            Err(Error { kind: ErrorKind::ConnectionRefused, cause: Cause::RefusedBy(self.dst) })
        }
    }

    /// The connection, where the request was accepted.
    pub fn finish(self, accepted: bool) -> (r: Result<TcpStream, Error>)
        ensures
            r == self.outcome(accepted),
    {
        if accepted {
            Ok(TcpStream { fd: self.fd, local: self.local, remote: self.dst })
        } else {
            Err(Error::new(ErrorKind::ConnectionRefused, Cause::RefusedBy(self.dst)))
        }
    }
}

} // verus!
