//! Sockets for datagrams.
use crate::addr::{IpAddr, Ipv4Addr, Ipv6Addr, SocketAddr};
use crate::dns::ToSocketAddrs;
use crate::envelope::{Datagram, Packet, Payload, Protocol};
use crate::error::{Cause, Error, ErrorKind};
use crate::host;
use crate::host::HostView;
use crate::net::groups;
use crate::top;
use crate::top::Fate;
use crate::world::{World, WorldView};
use vstd::prelude::*;

verus! {

/// A socket for datagrams.
pub struct UdpSocket {
    /// The address that it is bound to.
    pub local_addr: SocketAddr,
    /// A datagram that has been taken from the host and not been read.
    pub buffer: Option<(Datagram, SocketAddr)>,
}

/// An address that a datagram goes to, and whether it stays within the host.
#[derive(Clone, Copy, Debug, PartialEq, Eq, Structural)]
pub struct Target {
    /// The address.
    pub dst: SocketAddr,
    /// Whether the datagram stays within the host.
    pub loopback: bool,
}

/// What sending a datagram came to.
pub struct Sending {
    /// The number of bytes of the datagram, where all was sent.
    pub result: Result<usize, Error>,
    /// The addresses within the host that the datagram is to be handed to in the next step.
    pub loopbacks: Vec<SocketAddr>,
    /// The address that the datagram comes from.
    pub src: SocketAddr,
}

/// Whether a socket may be bound to the address: one that stands for all addresses, or for
/// the host itself.
pub open spec fn is_supported(a: IpAddr) -> bool {
    a.unspecified() || a.loopback()
}

/// Whether a host may bind a socket to the address.
pub fn verify_bind_addr(addr: SocketAddr) -> (r: Result<(), Error>)
    ensures
        r == (if is_supported(addr.ip) {
            Ok::<(), Error>(())
        } else {
            Err(Error { kind: ErrorKind::AddrNotAvailable, cause: Cause::AddressNotSupported(addr) })
        }),
{
    if !addr.ip.is_unspecified() && !addr.ip.is_loopback() {
        return Err(Error::new(ErrorKind::AddrNotAvailable, Cause::AddressNotSupported(addr)));
    }
    Ok(())
}

/// Whether a socket of the host may use the interface.
pub fn verify_ipv4_bind_interface(interface: Ipv4Addr, addr: IpAddr) -> (r: Result<(), Error>)
    requires
        is_supported(IpAddr::V4(interface)) ==> addr is V4,
    ensures
        r == (if is_supported(IpAddr::V4(interface)) {
            Ok::<(), Error>(())
        } else {
            Err(
                Error {
                    kind: ErrorKind::AddrNotAvailable,
                    cause: Cause::InterfaceNotSupported(IpAddr::V4(interface)),
                },
            )
        }),
{
    let interface = IpAddr::V4(interface);
    if !interface.is_unspecified() && !interface.is_loopback() {
        return Err(
            Error::new(ErrorKind::AddrNotAvailable, Cause::InterfaceNotSupported(interface)),
        );
    }
    Ok(())
}

/// Whether a socket may use the interface with the number: only the one that stands for any.
pub fn verify_ipv6_bind_interface(interface: u32) -> (r: Result<(), Error>)
    ensures
        r == (if interface == 0 {
            Ok::<(), Error>(())
        } else {
            Err(
                Error {
                    kind: ErrorKind::AddrNotAvailable,
                    cause: Cause::InterfaceIndexNotSupported(interface),
                },
            )
        }),
{
    if interface != 0 {
        return Err(
            Error::new(ErrorKind::AddrNotAvailable, Cause::InterfaceIndexNotSupported(interface)),
        );
    }
    Ok(())
}

/// The host with the port for the address chosen: the one that is asked for, or a free one.
pub open spec fn port_chosen(h: HostView, a: SocketAddr) -> (HostView, SocketAddr) {
    if a.port == 0 {
        (
            HostView { next_port: h.ports.after(h.free_port()), ..h },
            SocketAddr { port: h.free_port(), ..a },
        )
    } else {
        (h, a)
    }
}

/// The address that a datagram from a socket comes from: the host itself where it goes to
/// the host itself, and the host's address where the socket is bound to all addresses.
pub open spec fn source(local: SocketAddr, dst: SocketAddr, host: IpAddr) -> SocketAddr {
    let ip = if dst.ip.loopback() {
        dst.ip
    } else {
        local.ip
    };
    SocketAddr {
        ip: if ip.unspecified() {
            host
        } else {
            ip
        },
        port: local.port,
    }
}

/// Whether the address stands for all hosts.
pub open spec fn is_broadcast(a: IpAddr) -> bool {
    a matches IpAddr::V4(v4) && v4.bits == u32::MAX
}

/// Those of the first `n` hosts that have a socket on the port.
pub open spec fn listeners(w: WorldView, src: SocketAddr, port: u16, n: int) -> Seq<Target>
    decreases n,
{
    if n <= 0 {
        Seq::empty()
    } else {
        let rest = listeners(w, src, port, n - 1);
        let a = w.order[n - 1];
        if w.hosts[a].udp.binds.contains_key(port) {
            rest.push(
                Target { dst: SocketAddr { ip: a, port }, loopback: src.ip == a },
            )
        } else {
            rest
        }
    }
}

/// Those of the first `n` sockets of a group that a datagram goes to: one on the sender's own
/// host only where it wants what the host sends to groups.
pub open spec fn members(
    w: WorldView,
    src: SocketAddr,
    group: Seq<SocketAddr>,
    n: int,
) -> Seq<Target>
    decreases n,
{
    if n <= 0 {
        Seq::empty()
    } else {
        let rest = members(w, src, group, n - 1);
        let m = group[n - 1];
        let binds = w.running().udp.binds;
        if src.ip != m.ip {
            rest.push(Target { dst: m, loopback: false })
        } else if binds.contains_key(m.port) && binds[m.port].multicast_loop {
            rest.push(Target { dst: m, loopback: true })
        } else {
            rest
        }
    }
}

/// The addresses that a datagram from the socket goes to.
pub open spec fn planned(w: WorldView, local: SocketAddr, dst: SocketAddr) -> Result<
    Seq<Target>,
    Error,
> {
    let src = source(local, dst, w.running().addr);
    let binds = w.running().udp.binds;
    if (local.ip is V4) != (dst.ip is V4) {
        Err(Error { kind: ErrorKind::InvalidInput, cause: Cause::VersionMismatch })
    } else if is_broadcast(dst.ip) {
        if binds.contains_key(src.port) && binds[src.port].broadcast {
            Ok(listeners(w, src, dst.port, w.order.len() as int))
        } else {
            Err(Error { kind: ErrorKind::PermissionDenied, cause: Cause::BroadcastDisabled })
        }
    } else if dst.ip.multicast() {
        if w.groups.contains_key(dst) {
            Ok(members(w, src, w.groups[dst], w.groups[dst].len() as int))
        } else {
            Ok(Seq::empty())
        }
    } else {
        Ok(seq![Target { dst, loopback: host::stays_within(src, dst) }])
    }
}

/// The world once the datagram has been sent to the first `n` addresses.
pub open spec fn sent_to(
    w: WorldView,
    src: SocketAddr,
    plan: Seq<Target>,
    fates: Seq<Fate>,
    data: Seq<u8>,
    n: int,
) -> WorldView
    decreases n,
{
    if n <= 0 {
        w
    } else {
        let before = sent_to(w, src, plan, fates, data, n - 1);
        if plan[n - 1].loopback {
            before
        } else {
            before.sent(fates[n - 1], src, plan[n - 1].dst, Packet::Datagram(data))
        }
    }
}

/// The index of the first address, from the given one on, that no host has, or their number.
pub open spec fn first_refused(w: WorldView, src: SocketAddr, plan: Seq<Target>, i: int) -> int
    decreases plan.len() - i,
{
    if i >= plan.len() {
        plan.len() as int
    } else if !plan[i].loopback && !w.topology.linked(src.ip, plan[i].dst.ip) {
        i
    } else {
        first_refused(w, src, plan, i + 1)
    }
}

/// Those of the first `n` addresses that are within the host.
pub open spec fn loopbacks(plan: Seq<Target>, n: int) -> Seq<SocketAddr>
    decreases n,
{
    if n <= 0 {
        Seq::empty()
    } else if plan[n - 1].loopback {
        loopbacks(plan, n - 1).push(plan[n - 1].dst)
    } else {
        loopbacks(plan, n - 1)
    }
}

/// Whether the links to the addresses can carry a further message.
pub open spec fn can_send_all(w: WorldView, src: SocketAddr, plan: Seq<Target>) -> bool {
    forall|i: int|
        0 <= i < plan.len() && !(#[trigger] plan[i]).loopback ==> w.can_send(
            src.ip,
            plan[i].dst.ip,
        )
}

/// What sending a datagram comes to.
#[verifier::ext_equal]
pub struct SendingView {
    /// The world once it is sent.
    pub world: WorldView,
    /// The number of bytes of the datagram, where all was sent.
    pub result: Result<usize, Error>,
    /// The addresses within the host that the datagram is to be handed to in the next step.
    pub loopbacks: Seq<SocketAddr>,
}

/// What sending a datagram came to, and the world once it is sent.
pub open spec fn shown(s: Sending, world: WorldView) -> SendingView {
    SendingView { world, result: s.result, loopbacks: s.loopbacks@ }
}

/// Nothing is sent.
pub open spec fn failed(w: WorldView, e: Error) -> SendingView {
    SendingView { world: w, result: Err(e), loopbacks: Seq::empty() }
}

/// What sending a datagram from the socket to the address comes to. It goes to one address after
/// the other, up to the first that no host has.
pub open spec fn sending(
    w: WorldView,
    local: SocketAddr,
    dst: SocketAddr,
    fates: Seq<Fate>,
    data: Seq<u8>,
) -> SendingView {
    let src = source(local, dst, w.running().addr);
    match planned(w, local, dst) {
        Err(e) => failed(w, e),
        Ok(plan) => {
            let n = first_refused(w, src, plan, 0);
            SendingView {
                world: sent_to(w, src, plan, fates, data, n),
                result: if n < plan.len() {
                    Err(Error { kind: ErrorKind::ConnectionRefused, cause: Cause::Refused })
                } else {
                    Ok(data.len() as usize)
                },
                loopbacks: loopbacks(plan, n),
            }
        },
    }
}

/// Whether chance has decided for each address that the datagram goes to, and the links can
/// carry it.
pub open spec fn can_send_to(
    w: WorldView,
    local: SocketAddr,
    dst: SocketAddr,
    fates: Seq<Fate>,
) -> bool {
    let plan = planned(w, local, dst);
    plan is Ok ==> fates.len() >= plan->Ok_0.len() && can_send_all(
        w,
        source(local, dst, w.running().addr),
        plan->Ok_0,
    )
}

/// Whether the addresses outside the host are different from the one that is sent from.
proof fn lemma_plan_is_outward(w: WorldView, local: SocketAddr, dst: SocketAddr, i: int)
    requires
        planned(w, local, dst) is Ok,
        0 <= i < planned(w, local, dst)->Ok_0.len(),
        !planned(w, local, dst)->Ok_0[i].loopback,
    ensures
        planned(w, local, dst)->Ok_0[i].dst.ip != source(local, dst, w.running().addr).ip,
{
    let src = source(local, dst, w.running().addr);
    if is_broadcast(dst.ip) {
        lemma_listeners(w, src, dst.port, w.order.len() as int);
    } else if dst.ip.multicast() {
        lemma_members(w, src, w.groups[dst], w.groups[dst].len() as int);
    }
}

proof fn lemma_listeners(w: WorldView, src: SocketAddr, port: u16, n: int)
    ensures
        forall|i: int|
            0 <= i < listeners(w, src, port, n).len() && !(#[trigger] listeners(
                w,
                src,
                port,
                n,
            )[i]).loopback ==> listeners(w, src, port, n)[i].dst.ip != src.ip,
    decreases n,
{
    if n > 0 {
        lemma_listeners(w, src, port, n - 1);
        let before = listeners(w, src, port, n - 1);
        let here = listeners(w, src, port, n);
        assert forall|i: int| 0 <= i < here.len() && !(#[trigger] here[i]).loopback implies here[i]
            .dst.ip != src.ip by {
            if i < before.len() {
                assert(here[i] == before[i]);
            }
        }
    }
}

proof fn lemma_members(w: WorldView, src: SocketAddr, group: Seq<SocketAddr>, n: int)
    ensures
        forall|i: int|
            0 <= i < members(w, src, group, n).len() && !(#[trigger] members(
                w,
                src,
                group,
                n,
            )[i]).loopback ==> members(w, src, group, n)[i].dst.ip != src.ip,
    decreases n,
{
    if n > 0 {
        lemma_members(w, src, group, n - 1);
        let before = members(w, src, group, n - 1);
        let here = members(w, src, group, n);
        assert forall|i: int| 0 <= i < here.len() && !(#[trigger] here[i]).loopback implies here[i]
            .dst.ip != src.ip by {
            if i < before.len() {
                assert(here[i] == before[i]);
            }
        }
    }
}

/// Sending leaves which hosts have links, and which links can carry a further message.
proof fn lemma_sent_keeps(
    w: WorldView,
    src: SocketAddr,
    plan: Seq<Target>,
    fates: Seq<Fate>,
    data: Seq<u8>,
    n: int,
)
    requires
        0 <= n <= plan.len(),
    ensures
        ({
            let after = sent_to(w, src, plan, fates, data, n);
            &&& forall|a: IpAddr, b: IpAddr| #[trigger]
                after.topology.linked(a, b) == w.topology.linked(a, b)
            &&& forall|a: IpAddr, b: IpAddr| #[trigger] after.can_send(a, b) == w.can_send(a, b)
        }),
    decreases n,
{
    if n > 0 {
        lemma_sent_keeps(w, src, plan, fates, data, n - 1);
        let before = sent_to(w, src, plan, fates, data, n - 1);
        let after = sent_to(w, src, plan, fates, data, n);
        let dst = plan[n - 1].dst;
        if !plan[n - 1].loopback && before.topology.linked(src.ip, dst.ip) {
            let p = top::pair(src.ip, dst.ip);
            let l = before.topology.links[p];
            let m = after.topology.links[p];
            assert(m.now == l.now && m.latency == l.latency);
            assert(after.topology.links.dom() =~= before.topology.links.dom());
            assert forall|a: IpAddr, b: IpAddr| #[trigger]
                after.topology.linked(a, b) == w.topology.linked(a, b) by {
                assert(before.topology.linked(a, b) == w.topology.linked(a, b));
            }
            assert forall|a: IpAddr, b: IpAddr| #[trigger] after.can_send(a, b) == w.can_send(
                a,
                b,
            ) by {
                assert(before.can_send(a, b) == w.can_send(a, b));
                assert(after.topology.linked(a, b) == before.topology.linked(a, b));
            }
        }
    }
}

impl UdpSocket {
    /// Binds a socket of the host that is running to the address. Port zero stands for a port
    /// of the host's choice.
    pub fn bind<A: ToSocketAddrs>(world: &mut World, addr: &A) -> (r: Result<UdpSocket, Error>)
        requires
            old(world).wf(),
            old(world)@.current is Some,
            ({
                let a = addr.resolved_socket(old(world)@.dns);
                a is Ok && is_supported(a->Ok_0.ip) ==> {
                    &&& (a->Ok_0.ip is V4) == (old(world)@.running().addr is V4)
                    &&& a->Ok_0.port == 0 ==> old(world)@.running().has_free_port()
                }
            }),
        ensures
            final(world).wf(),
            match addr.resolved_socket(old(world)@.dns) {
                Err(e) => r is Err && r->Err_0 == e && final(world)@ == old(world)@,
                Ok(a) => if !is_supported(a.ip) {
                    &&& r is Err
                    &&& r->Err_0 == (Error {
                        kind: ErrorKind::AddrNotAvailable,
                        cause: Cause::AddressNotSupported(a),
                    })
                    &&& final(world)@ == old(world)@
                } else {
                    let (h, local) = port_chosen(old(world)@.running(), a);
                    if h.udp.binds.contains_key(local.port) {
                        &&& r is Err
                        &&& r->Err_0 == (Error {
                            kind: ErrorKind::AddrInUse,
                            cause: Cause::AddressInUse(local),
                        })
                        &&& final(world)@ == old(world)@.with_running(h)
                    } else {
                        &&& r is Ok
                        &&& r->Ok_0.local_addr == local
                        &&& r->Ok_0.buffer is None
                        &&& final(world)@ == old(world)@.with_running(
                            HostView { udp: h.udp.bound(local), ..h },
                        )
                    }
                },
            },
    {
        let mut local = match addr.to_socket_addr(world.dns()) {
            Ok(a) => a,
            Err(e) => {
                return Err(e);
            },
        };
        match verify_bind_addr(local) {
            Ok(_) => {},
            Err(e) => {
                return Err(e);
            },
        }
        let ghost start = world@;
        let host = world.current_host_mut();
        if local.port == 0 {
            local.port = host.assign_ephemeral_port();
        }
        match host.udp.bind(local) {
            Ok(a) => Ok(UdpSocket { local_addr: a, buffer: None }),
            Err(e) => {
                assert(world@ =~= start.with_running(port_chosen(start.running(), addr.resolved_socket(start.dns)->Ok_0).0));
                Err(e)
            },
        }
    }

    fn source_addr(&self, world: &World, dst: SocketAddr) -> (r: SocketAddr)
        requires
            world.wf(),
            world@.current is Some,
        ensures
            r == source(self.local_addr, dst, world@.running().addr),
    {
        let mut src = self.local_addr;
        if dst.ip.is_loopback() {
            src.ip = dst.ip;
        }
        if src.ip.is_unspecified() {
            src.ip = world.current_host().addr;
        }
        src
    }

    /// The addresses that a datagram from the socket goes to.
    pub fn destinations(&self, world: &World, dst: SocketAddr) -> (r: Result<Vec<Target>, Error>)
        requires
            world.wf(),
            world@.current is Some,
        ensures
            match planned(world@, self.local_addr, dst) {
                Ok(plan) => r is Ok && r->Ok_0@ == plan,
                Err(e) => r is Err && r->Err_0 == e,
            },
    {
        let src = self.source_addr(world, dst);
        if self.local_addr.is_ipv4() != dst.is_ipv4() {
            return Err(Error::new(ErrorKind::InvalidInput, Cause::VersionMismatch));
        }
        let mut out: Vec<Target> = Vec::new();
        let broadcast = match dst.ip {
            IpAddr::V4(v4) => v4.is_broadcast(),
            IpAddr::V6(_) => false,
        };
        if broadcast {
            if !world.current_host().udp.is_broadcast_enabled(src.port) {
                return Err(Error::new(ErrorKind::PermissionDenied, Cause::BroadcastDisabled));
            }
            let addrs = world.host_addrs();
            let mut i: usize = 0;
            proof {
                world.lemma_wf();
            }
            while i < addrs.len()
                invariant
                    i <= addrs@.len(),
                    addrs@ == world@.order,
                    world.wf(),
                    world@.wf(),
                    out@ == listeners(world@, src, dst.port, i as int),
                decreases addrs.len() - i,
            {
                let a = addrs[i];
                assert(world@.order.contains(a));
                if world.host(a).udp.is_port_assigned(dst.port) {
                    out.push(
                        Target { dst: SocketAddr::new(a, dst.port), loopback: src.ip == a },
                    );
                }
                i = i + 1;
            }
            return Ok(out);
        }
        if dst.ip.is_multicast() {
            let group = world.groups().destination_addresses(dst);
            let mut i: usize = 0;
            while i < group.len()
                invariant
                    i <= group@.len(),
                    world.wf(),
                    world@.current is Some,
                    out@ == members(world@, src, group@, i as int),
                decreases group.len() - i,
            {
                let m = group[i];
                if src.ip != m.ip {
                    out.push(Target { dst: m, loopback: false });
                } else if world.current_host().udp.is_multicast_loop_enabled(m.port) {
                    out.push(Target { dst: m, loopback: true });
                }
                i = i + 1;
            }
            proof {
                if !world@.groups.contains_key(dst) {
                    assert(out@ =~= Seq::empty());
                }
            }
            return Ok(out);
        }
        out.push(Target { dst, loopback: host::is_same(src, dst) });
        assert(out@ =~= seq![Target { dst, loopback: host::stays_within(src, dst) }]);
        Ok(out)
    }

    /// Sends a datagram to the address, which may stand for several. For each address outside
    /// the host chance has decided what becomes of the message.
    pub fn send(&self, world: &mut World, dst: SocketAddr, packet: &Datagram, fates: &Vec<Fate>) -> (r:
        Sending)
        requires
            old(world).wf(),
            old(world)@.current is Some,
            can_send_to(old(world)@, self.local_addr, dst, fates@),
        ensures
            final(world).wf(),
            r.src == source(self.local_addr, dst, old(world)@.running().addr),
            shown(r, final(world)@) == sending(
                old(world)@,
                self.local_addr,
                dst,
                fates@,
                packet.0@,
            ),
    {
        let ghost w = world@;
        let src = self.source_addr(world, dst);
        let mut near: Vec<SocketAddr> = Vec::new();
        let plan = match self.destinations(world, dst) {
            Ok(plan) => plan,
            Err(e) => {
                assert(near@ =~= Seq::empty());
                return Sending { result: Err(e), loopbacks: near, src };
            },
        };
        let mut i: usize = 0;
        while i < plan.len()
            invariant
                i <= plan@.len(),
                w == old(world)@,
                world.wf(),
                planned(w, self.local_addr, dst) == Ok::<Seq<Target>, Error>(plan@),
                src == source(self.local_addr, dst, w.running().addr),
                fates@.len() >= plan@.len(),
                can_send_all(w, src, plan@),
                world@ == sent_to(w, src, plan@, fates@, packet.0@, i as int),
                near@ == loopbacks(plan@, i as int),
                first_refused(w, src, plan@, 0) == first_refused(w, src, plan@, i as int),
            decreases plan.len() - i,
        {
            let target = plan[i];
            if target.loopback {
                near.push(target.dst);
            } else {
                proof {
                    lemma_plan_is_outward(w, self.local_addr, dst, i as int);
                    lemma_sent_keeps(w, src, plan@, fates@, packet.0@, i as int);
                    assert(w.can_send(src.ip, plan@[i as int].dst.ip));
                    assert(world@.can_send(src.ip, target.dst.ip) == w.can_send(
                        src.ip,
                        target.dst.ip,
                    ));
                    assert(world@.topology.linked(src.ip, target.dst.ip) == w.topology.linked(
                        src.ip,
                        target.dst.ip,
                    ));
                }
                let message = Protocol::Udp(Datagram(packet.0.share()));
                match world.send_message(fates[i], src, target.dst, message) {
                    Ok(_) => {},
                    Err(e) => {
                        proof {
                            assert(!w.topology.linked(src.ip, target.dst.ip));
                            assert(first_refused(w, src, plan@, 0) == i);
                            assert(world@ =~= sent_to(w, src, plan@, fates@, packet.0@, i as int));
                        }
                        return Sending { result: Err(e), loopbacks: near, src };
                    },
                }
            }
            i = i + 1;
        }
        Sending { result: Ok(packet.0.as_slice().len()), loopbacks: near, src }
    }

    /// Sends the bytes to the address, which may stand for several, and returns how many they
    /// are.
    pub fn send_to<A: ToSocketAddrs>(
        &self,
        world: &mut World,
        buf: &[u8],
        target: &A,
        fates: &Vec<Fate>,
    ) -> (r: Sending)
        requires
            old(world).wf(),
            old(world)@.current is Some,
            target.resolved_socket(old(world)@.dns) is Ok ==> can_send_to(
                old(world)@,
                self.local_addr,
                target.resolved_socket(old(world)@.dns)->Ok_0,
                fates@,
            ),
        ensures
            final(world).wf(),
            match target.resolved_socket(old(world)@.dns) {
                Err(e) => shown(r, final(world)@) == failed(old(world)@, e),
                Ok(dst) => {
                    &&& r.src == source(self.local_addr, dst, old(world)@.running().addr)
                    &&& shown(r, final(world)@) == sending(
                        old(world)@,
                        self.local_addr,
                        dst,
                        fates@,
                        buf@,
                    )
                },
            },
    {
        match target.to_socket_addr(world.dns()) {
            Ok(dst) => {
                let packet = Datagram(Payload::copy_from_slice(buf));
                self.send(world, dst, &packet, fates)
            },
            Err(e) => {
                let r = Sending { result: Err(e), loopbacks: Vec::new(), src: self.local_addr };
                assert(r.loopbacks@ =~= Seq::empty());
                r
            },
        }
    }

    /// Sends the bytes at once, as `send_to` does: a socket for datagrams never has to wait.
    pub fn try_send_to<A: ToSocketAddrs>(
        &self,
        world: &mut World,
        buf: &[u8],
        target: &A,
        fates: &Vec<Fate>,
    ) -> (r: Sending)
        requires
            old(world).wf(),
            old(world)@.current is Some,
            target.resolved_socket(old(world)@.dns) is Ok ==> can_send_to(
                old(world)@,
                self.local_addr,
                target.resolved_socket(old(world)@.dns)->Ok_0,
                fates@,
            ),
        ensures
            final(world).wf(),
            match target.resolved_socket(old(world)@.dns) {
                Err(e) => shown(r, final(world)@) == failed(old(world)@, e),
                Ok(dst) => {
                    &&& r.src == source(self.local_addr, dst, old(world)@.running().addr)
                    &&& shown(r, final(world)@) == sending(
                        old(world)@,
                        self.local_addr,
                        dst,
                        fates@,
                        buf@,
                    )
                },
            },
    {
        self.send_to(world, buf, target, fates)
    }

    /// Whether a datagram waits to be read. One that has arrived at the host is taken from it.
    pub fn readable(&mut self, world: &mut World) -> (r: bool)
        requires
            old(world).wf(),
            old(world)@.current is Some,
        ensures
            final(world).wf(),
            final(self).local_addr == old(self).local_addr,
            r == has_datagram(*old(self), old(world)@),
            r ==> shown_buffer(*final(self)) == Some(next_datagram(*old(self), old(world)@)),
            !r ==> final(self).buffer is None,
            final(world)@ == (if old(self).buffer is None && r {
                taken_from(old(world)@, old(self).local_addr.port)
            } else {
                old(world)@
            }),
    {
        if self.buffer.is_some() {
            return true;
        }
        let ghost start = world@;
        proof {
            world.lemma_wf();
        }
        let port: u16 = self.local_addr.port;
        let host = world.current_host_mut();
        let taken = host.udp.take(port);
        assert(start.with_running(start.running()) =~= start);
        match taken {
            Some(e) => {
                self.buffer = Some(e);
                true
            },
            None => false,
        }
    }

    /// Reads the oldest datagram into the buffer, without what does not fit, and returns how
    /// many bytes were read and where the datagram comes from.
    pub fn try_recv_from(&mut self, world: &mut World, buf: &mut [u8]) -> (r: Result<
        (usize, SocketAddr),
        Error,
    >)
        requires
            old(world).wf(),
            old(world)@.current is Some,
        ensures
            final(world).wf(),
            final(self).local_addr == old(self).local_addr,
            final(self).buffer is None,
            final(buf)@.len() == old(buf)@.len(),
            if has_datagram(*old(self), old(world)@) {
                let d = next_datagram(*old(self), old(world)@);
                let n = if d.0.len() < old(buf)@.len() {
                    d.0.len()
                } else {
                    old(buf)@.len()
                };
                &&& r == Ok::<(usize, SocketAddr), Error>((n as usize, d.1))
                &&& final(buf)@ == d.0.take(n as int) + old(buf)@.skip(n as int)
                &&& final(world)@ == (if old(self).buffer is None {
                    taken_from(old(world)@, old(self).local_addr.port)
                } else {
                    old(world)@
                })
            } else {
                &&& r == Err::<(usize, SocketAddr), Error>(
                    Error { kind: ErrorKind::WouldBlock, cause: Cause::QueueEmpty },
                )
                &&& final(buf)@ == old(buf)@
                &&& final(world)@ == old(world)@
            },
    {
        if !self.readable(world) {
            return Err(Error::new(ErrorKind::WouldBlock, Cause::QueueEmpty));
        }
        let mut held: Option<(Datagram, SocketAddr)> = None;
        std::mem::swap(&mut held, &mut self.buffer);
        match held {
            Some((datagram, origin)) => {
                let bytes = datagram.0.as_slice();
                let limit: usize = if buf.len() < bytes.len() {
                    buf.len()
                } else {
                    bytes.len()
                };
                let ghost before = buf@;
                let mut i: usize = 0;
                assert(before =~= bytes@.take(0) + before.skip(0));
                while i < limit
                    invariant
                        i <= limit,
                        limit <= bytes@.len(),
                        limit <= before.len(),
                        buf@.len() == before.len(),
                        buf@ == bytes@.take(i as int) + before.skip(i as int),
                    decreases limit - i,
                {
                    buf[i] = bytes[i];
                    i = i + 1;
                    assert(buf@ =~= bytes@.take(i as int) + before.skip(i as int));
                }
                Ok((limit, origin))
            },
            None => Err(Error::new(ErrorKind::WouldBlock, Cause::QueueEmpty)),
        }
    }

    /// The address that the socket is bound to.
    pub fn local_addr(&self) -> (r: SocketAddr)
        ensures
            r == self.local_addr,
    {
        self.local_addr
    }

    /// Gives the socket up: it leaves its groups, and its port is free.
    pub fn close(self, world: &mut World)
        requires
            old(world).wf(),
            old(world)@.current is Some,
            old(world)@.running().udp.binds.contains_key(self.local_addr.port),
        ensures
            final(world).wf(),
            ({
                let w = old(world)@;
                let h = w.running();
                final(world)@ == WorldView {
                    groups: groups::left_all(w.groups, self.member(w)),
                    ..w.with_running(
                        HostView {
                            udp: host::UdpView {
                                binds: h.udp.binds.remove(self.local_addr.port),
                                ..h.udp
                            },
                            ..h
                        },
                    )
                }
            }),
    {
        let member = self.destination_address(world);
        world.leave_all_groups(member);
        let host = world.current_host_mut();
        host.udp.unbind(self.local_addr);
    }

    /// Whether the socket may send to all hosts.
    pub fn broadcast(&self, world: &World) -> (r: bool)
        requires
            world.wf(),
            world@.current is Some,
        ensures
            ({
                let binds = world@.running().udp.binds;
                let port = self.local_addr.port;
                r == (binds.contains_key(port) && binds[port].broadcast)
            }),
    {
        world.current_host().udp.is_broadcast_enabled(self.local_addr.port)
    }

    /// Sets whether the socket may send to all hosts, which only one for short addresses can.
    pub fn set_broadcast(&self, world: &mut World, on: bool)
        requires
            old(world).wf(),
            old(world)@.current is Some,
        ensures
            final(world).wf(),
            ({
                let h = old(world)@.running();
                let port = self.local_addr.port;
                final(world)@ == (if self.local_addr.ip is V4 && h.udp.binds.contains_key(port) {
                    old(world)@.with_running(
                        HostView {
                            udp: host::UdpView {
                                binds: h.udp.binds.insert(
                                    port,
                                    host::UdpBindView { broadcast: on, ..h.udp.binds[port] },
                                ),
                                ..h.udp
                            },
                            ..h
                        },
                    )
                } else {
                    old(world)@
                })
            }),
    {
        let ghost start = world@;
        proof {
            world.lemma_wf();
        }
        if self.local_addr.is_ipv4() {
            let host = world.current_host_mut();
            host.udp.set_broadcast(self.local_addr.port, on);
            assert(start.with_running(start.running()) =~= start);
        }
    }

    /// Whether what the socket sends to a group comes back to its own host.
    pub fn multicast_loop_v4(&self, world: &World) -> (r: bool)
        requires
            world.wf(),
            world@.current is Some,
        ensures
            ({
                let binds = world@.running().udp.binds;
                let port = self.local_addr.port;
                r == (binds.contains_key(port) && binds[port].multicast_loop)
            }),
    {
        world.current_host().udp.is_multicast_loop_enabled(self.local_addr.port)
    }

    /// Whether what the socket sends to a group comes back to its own host.
    pub fn multicast_loop_v6(&self, world: &World) -> (r: bool)
        requires
            world.wf(),
            world@.current is Some,
        ensures
            ({
                let binds = world@.running().udp.binds;
                let port = self.local_addr.port;
                r == (binds.contains_key(port) && binds[port].multicast_loop)
            }),
    {
        world.current_host().udp.is_multicast_loop_enabled(self.local_addr.port)
    }

    /// Sets whether what a socket for short addresses sends to a group comes back to its own
    /// host.
    pub fn set_multicast_loop_v4(&self, world: &mut World, on: bool)
        requires
            old(world).wf(),
            old(world)@.current is Some,
        ensures
            final(world).wf(),
            final(world)@ == (if self.local_addr.ip is V4 {
                looped(old(world)@, self.local_addr.port, on)
            } else {
                old(world)@
            }),
    {
        if self.local_addr.is_ipv4() {
            set_multicast_loop(world, self.local_addr.port, on);
        }
    }

    /// Sets whether what a socket for long addresses sends to a group comes back to its own
    /// host.
    pub fn set_multicast_loop_v6(&self, world: &mut World, on: bool)
        requires
            old(world).wf(),
            old(world)@.current is Some,
        ensures
            final(world).wf(),
            final(world)@ == (if self.local_addr.ip is V6 {
                looped(old(world)@, self.local_addr.port, on)
            } else {
                old(world)@
            }),
    {
        if self.local_addr.is_ipv6() {
            set_multicast_loop(world, self.local_addr.port, on);
        }
    }

    /// The address at which the host that is running has the socket.
    pub fn destination_address(&self, world: &World) -> (r: SocketAddr)
        requires
            world.wf(),
            world@.current is Some,
        ensures
            r == self.member(world@),
    {
        SocketAddr::new(world.current_host().addr, self.local_addr.port)
    }

    /// The address at which the host that is running has the socket.
    pub open spec fn member(&self, w: WorldView) -> SocketAddr {
        SocketAddr { ip: w.running().addr, port: self.local_addr.port }
    }

    /// Joins a group.
    pub fn join_multicast_v4(&self, world: &mut World, multiaddr: Ipv4Addr, interface: Ipv4Addr) -> (r:
        Result<(), Error>)
        requires
            old(world).wf(),
            old(world)@.current is Some,
            IpAddr::V4(multiaddr).multicast() && is_supported(IpAddr::V4(interface)) ==> old(
                world,
            )@.running().addr is V4,
        ensures
            final(world).wf(),
            r == joining_v4(multiaddr, interface),
            final(world)@ == (if r is Ok {
                WorldView {
                    groups: groups::joined(
                        old(world)@.groups,
                        groups::group_of(IpAddr::V4(multiaddr), self.member(old(world)@)),
                        self.member(old(world)@),
                    ),
                    ..old(world)@
                }
            } else {
                old(world)@
            }),
    {
        if !multiaddr.is_multicast() {
            return Err(Error::new(ErrorKind::InvalidInput, Cause::NotMulticast));
        }
        let dst = self.destination_address(world);
        match verify_ipv4_bind_interface(interface, dst.ip) {
            Ok(_) => {},
            Err(e) => {
                return Err(e);
            },
        }
        world.join_group(IpAddr::V4(multiaddr), dst);
        Ok(())
    }

    /// Joins a group.
    pub fn join_multicast_v6(&self, world: &mut World, multiaddr: Ipv6Addr, interface: u32) -> (r:
        Result<(), Error>)
        requires
            old(world).wf(),
            old(world)@.current is Some,
        ensures
            final(world).wf(),
            r == joining_v6(multiaddr, interface),
            final(world)@ == (if r is Ok {
                WorldView {
                    groups: groups::joined(
                        old(world)@.groups,
                        groups::group_of(IpAddr::V6(multiaddr), self.member(old(world)@)),
                        self.member(old(world)@),
                    ),
                    ..old(world)@
                }
            } else {
                old(world)@
            }),
    {
        match verify_ipv6_bind_interface(interface) {
            Ok(_) => {},
            Err(e) => {
                return Err(e);
            },
        }
        if !multiaddr.is_multicast() {
            return Err(Error::new(ErrorKind::InvalidInput, Cause::NotMulticast));
        }
        let dst = self.destination_address(world);
        world.join_group(IpAddr::V6(multiaddr), dst);
        Ok(())
    }

    /// Leaves a group that the socket is in.
    pub fn leave_multicast_v4(&self, world: &mut World, multiaddr: Ipv4Addr, interface: Ipv4Addr) -> (r:
        Result<(), Error>)
        requires
            old(world).wf(),
            old(world)@.current is Some,
            IpAddr::V4(multiaddr).multicast() && is_supported(IpAddr::V4(interface)) ==> old(
                world,
            )@.running().addr is V4,
        ensures
            final(world).wf(),
            r == leaving(
                old(world)@,
                joining_v4(multiaddr, interface),
                IpAddr::V4(multiaddr),
                self.member(old(world)@),
            ),
            final(world)@ == (if r is Ok {
                WorldView {
                    groups: groups::left(
                        old(world)@.groups,
                        groups::group_of(IpAddr::V4(multiaddr), self.member(old(world)@)),
                        self.member(old(world)@),
                    ),
                    ..old(world)@
                }
            } else {
                old(world)@
            }),
    {
        if !multiaddr.is_multicast() {
            return Err(Error::new(ErrorKind::InvalidInput, Cause::NotMulticast));
        }
        let dst = self.destination_address(world);
        match verify_ipv4_bind_interface(interface, dst.ip) {
            Ok(_) => {},
            Err(e) => {
                return Err(e);
            },
        }
        if !world.groups().contains_destination_address(IpAddr::V4(multiaddr), dst) {
            return Err(Error::new(ErrorKind::AddrNotAvailable, Cause::NotJoined));
        }
        world.leave_group(IpAddr::V4(multiaddr), dst);
        Ok(())
    }

    /// Leaves a group that the socket is in.
    pub fn leave_multicast_v6(&self, world: &mut World, multiaddr: Ipv6Addr, interface: u32) -> (r:
        Result<(), Error>)
        requires
            old(world).wf(),
            old(world)@.current is Some,
        ensures
            final(world).wf(),
            r == leaving(
                old(world)@,
                joining_v6(multiaddr, interface),
                IpAddr::V6(multiaddr),
                self.member(old(world)@),
            ),
            final(world)@ == (if r is Ok {
                WorldView {
                    groups: groups::left(
                        old(world)@.groups,
                        groups::group_of(IpAddr::V6(multiaddr), self.member(old(world)@)),
                        self.member(old(world)@),
                    ),
                    ..old(world)@
                }
            } else {
                old(world)@
            }),
    {
        match verify_ipv6_bind_interface(interface) {
            Ok(_) => {},
            Err(e) => {
                return Err(e);
            },
        }
        if !multiaddr.is_multicast() {
            return Err(Error::new(ErrorKind::InvalidInput, Cause::NotMulticast));
        }
        let dst = self.destination_address(world);
        if !world.groups().contains_destination_address(IpAddr::V6(multiaddr), dst) {
            return Err(Error::new(ErrorKind::AddrNotAvailable, Cause::NotJoined));
        }
        world.leave_group(IpAddr::V6(multiaddr), dst);
        Ok(())
    }
}

/// The datagram in the socket's buffer.
pub open spec fn shown_buffer(s: UdpSocket) -> Option<(Seq<u8>, SocketAddr)> {
    match s.buffer {
        Some(e) => Some((e.0.0@, e.1)),
        None => None,
    }
}

/// Whether a datagram waits to be read: in the socket's buffer, or at the host.
pub open spec fn has_datagram(s: UdpSocket, w: WorldView) -> bool {
    let binds = w.running().udp.binds;
    let port = s.local_addr.port;
    s.buffer is Some || (binds.contains_key(port) && binds[port].queue.len() > 0)
}

/// The datagram that is read next.
pub open spec fn next_datagram(s: UdpSocket, w: WorldView) -> (Seq<u8>, SocketAddr) {
    match shown_buffer(s) {
        Some(d) => d,
        None => w.running().udp.binds[s.local_addr.port].queue[0],
    }
}

/// The world once the oldest datagram on the port is taken from the host.
pub open spec fn taken_from(w: WorldView, port: u16) -> WorldView {
    let h = w.running();
    w.with_running(
        HostView {
            udp: host::UdpView {
                binds: h.udp.binds.insert(
                    port,
                    host::UdpBindView {
                        queue: h.udp.binds[port].queue.skip(1),
                        ..h.udp.binds[port]
                    },
                ),
                ..h.udp
            },
            ..h
        },
    )
}

/// What joining a group comes to.
pub open spec fn joining_v4(multiaddr: Ipv4Addr, interface: Ipv4Addr) -> Result<(), Error> {
    if !IpAddr::V4(multiaddr).multicast() {
        Err(Error { kind: ErrorKind::InvalidInput, cause: Cause::NotMulticast })
    } else if !is_supported(IpAddr::V4(interface)) {
        Err(
            Error {
                kind: ErrorKind::AddrNotAvailable,
                cause: Cause::InterfaceNotSupported(IpAddr::V4(interface)),
            },
        )
    } else {
        Ok(())
    }
}

/// What joining a group comes to.
pub open spec fn joining_v6(multiaddr: Ipv6Addr, interface: u32) -> Result<(), Error> {
    if interface != 0 {
        Err(
            Error {
                kind: ErrorKind::AddrNotAvailable,
                cause: Cause::InterfaceIndexNotSupported(interface),
            },
        )
    } else if !multiaddr.in_multicast() {
        Err(Error { kind: ErrorKind::InvalidInput, cause: Cause::NotMulticast })
    } else {
        Ok(())
    }
}

/// What leaving a group comes to, which could have been joined or not.
pub open spec fn leaving(
    w: WorldView,
    joining: Result<(), Error>,
    group: IpAddr,
    member: SocketAddr,
) -> Result<(), Error> {
    let g = groups::group_of(group, member);
    if joining is Err {
        joining
    } else if !(w.groups.contains_key(g) && w.groups[g].contains(member)) {
        Err(Error { kind: ErrorKind::AddrNotAvailable, cause: Cause::NotJoined })
    } else {
        Ok(())
    }
}

/// The world with what the socket on the port sends to groups coming back, or not.
pub open spec fn looped(w: WorldView, port: u16, on: bool) -> WorldView {
    let h = w.running();
    if h.udp.binds.contains_key(port) {
        w.with_running(
            HostView {
                udp: host::UdpView {
                    binds: h.udp.binds.insert(
                        port,
                        host::UdpBindView { multicast_loop: on, ..h.udp.binds[port] },
                    ),
                    ..h.udp
                },
                ..h
            },
        )
    } else {
        w
    }
}

fn set_multicast_loop(world: &mut World, port: u16, on: bool)
    requires
        old(world).wf(),
        old(world)@.current is Some,
    ensures
        final(world).wf(),
        final(world)@ == looped(old(world)@, port, on),
{
    let ghost start = world@;
    proof {
        world.lemma_wf();
    }
    let host = world.current_host_mut();
    host.udp.set_multicast_loop(port, on);
    assert(start.with_running(start.running()) =~= start);
}

} // verus!
