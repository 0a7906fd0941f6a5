//! Connections between hosts.
use std::collections::VecDeque;
use turmoil::addr::{IpAddr, Ipv4Addr, Ipv6Addr, SocketAddr};
use turmoil::builder::Builder;
use turmoil::envelope::{Envelope, Protocol, Segment, Syn};
use turmoil::error::{Error, ErrorKind};
use turmoil::ip::IpVersion;
use turmoil::net::stream::{Arrival, Poll, SequencedSegment, SocketPair};
use turmoil::net::tcp::{Connecting, TcpListener, TcpStream};
use turmoil::sim::Sim;
use turmoil::time::Duration;
use turmoil::top::Fate;
use turmoil::world::World;

const PORT: u16 = 1738;

fn builder() -> Builder {
    Builder::new(Duration::zero())
}

fn name(s: &str) -> Vec<u8> {
    s.as_bytes().to_vec()
}

fn any() -> IpAddr {
    IpAddr::V4(Ipv4Addr::unspecified())
}

fn any_v6() -> IpAddr {
    IpAddr::V6(Ipv6Addr::unspecified())
}

fn calm() -> Fate {
    Fate { fail: false, repair: false, extra: Duration::zero() }
}

/// Runs something as the software of a host.
fn on<R>(sim: &mut Sim, host: &str, f: impl FnOnce(&mut World) -> R) -> R {
    let addr = sim.lookup(&name(host));
    sim.world_mut().set_current(Some(addr));
    let r = f(sim.world_mut());
    sim.world_mut().set_current(None);
    r
}

/// A step in which no software does anything.
fn step(sim: &mut Sim) {
    let (running, stopped) = sim.begin_step();
    let clock = sim.elapsed();
    let mut is_finished = true;
    for addr in running {
        sim.enter_host(addr, clock);
        is_finished = sim.leave_host(addr, None).unwrap() && is_finished;
    }
    sim.end_step(&stopped, is_finished).unwrap();
}

fn bind_to(sim: &mut Sim, host: &str, ip: IpAddr, port: u16) -> Result<TcpListener, Error> {
    on(sim, host, |w| TcpListener::bind(w, &(ip, port)))
}

fn bind(sim: &mut Sim, host: &str) -> TcpListener {
    bind_to(sim, host, any(), PORT).unwrap()
}

/// Asks for a connection, and hands the request over where it stays within the host.
fn connect(sim: &mut Sim, host: &str, dst: SocketAddr, ack: u64) -> Result<Connecting, Error> {
    let asked = on(sim, host, |w| TcpStream::connect(w, &dst, ack, calm()))?;
    if asked.loopback {
        let addr = sim.lookup(&name(host));
        sim.world_mut().host_mut(addr).receive_from_network(Envelope {
            src: asked.local,
            dst: asked.dst,
            message: Protocol::Tcp(Segment::Syn(Syn { ack })),
        });
    }
    Ok(asked)
}

fn accept(sim: &mut Sim, host: &str, listener: &TcpListener) -> Option<(TcpStream, SocketAddr)> {
    on(sim, host, |w| listener.poll_accept(w, 0, true))
}

fn refusal(sim: &Sim, asked: Connecting) -> ErrorKind {
    match asked.poll(sim.world(), false, false) {
        Poll::Ready(Err(e)) => e.kind,
        _ => panic!("not refused"),
    }
}

fn is_waiting(sim: &Sim, asked: Connecting) -> bool {
    matches!(asked.poll(sim.world(), false, false), Poll::Pending)
}

fn established(sim: &Sim, asked: Connecting) -> TcpStream {
    match asked.poll(sim.world(), true, false) {
        Poll::Ready(Ok(s)) => s,
        _ => panic!("not connected"),
    }
}

fn at(sim: &Sim, host: &str, port: u16) -> SocketAddr {
    SocketAddr::new(sim.lookup(&name(host)), port)
}

/// The bytes between two ends that are connected.
struct Wire {
    client: turmoil::net::stream::TcpStream,
    server: turmoil::net::stream::TcpStream,
    to_client: VecDeque<Segment>,
    to_server: VecDeque<Segment>,
    seq: u64,
}

fn arrival(queue: &mut VecDeque<Segment>) -> Arrival {
    match queue.pop_front() {
        None => Arrival::Pending,
        Some(Segment::Data(_, data)) => Arrival::Segment(SequencedSegment::Data(data)),
        Some(Segment::Fin(_)) => Arrival::Segment(SequencedSegment::Fin),
        Some(_) => Arrival::Closed,
    }
}

impl Wire {
    fn new(client: &TcpStream, server: &TcpStream) -> Self {
        let there = SocketPair::new(client.local_addr(), client.peer_addr());
        let here = SocketPair::new(server.local_addr(), server.peer_addr());
        Wire {
            client: turmoil::net::stream::TcpStream::new(there),
            server: turmoil::net::stream::TcpStream::new(here),
            to_client: VecDeque::new(),
            to_server: VecDeque::new(),
            seq: 0,
        }
    }

    fn client_write(&mut self, bytes: &[u8]) -> Result<usize, Error> {
        self.seq += 1;
        let (r, segment) = self.client.poll_write(bytes, Some(self.seq));
        self.to_server.extend(segment);
        r
    }

    fn server_write(&mut self, bytes: &[u8]) -> Result<usize, Error> {
        self.seq += 1;
        let (r, segment) = self.server.poll_write(bytes, Some(self.seq));
        self.to_client.extend(segment);
        r
    }

    fn client_shutdown(&mut self) -> Result<(), Error> {
        self.seq += 1;
        let (r, segment) = self.client.poll_shutdown(Some(self.seq));
        self.to_server.extend(segment);
        r
    }

    fn client_read(&mut self, room: usize) -> Vec<u8> {
        let next = if self.client.needs_arrival(room) {
            arrival(&mut self.to_client)
        } else {
            Arrival::Pending
        };
        match self.client.poll_read(room, next) {
            Poll::Ready(Ok(bytes)) => bytes,
            _ => panic!("nothing to read"),
        }
    }

    fn server_read(&mut self, room: usize) -> Vec<u8> {
        let next = if self.server.needs_arrival(room) {
            arrival(&mut self.to_server)
        } else {
            Arrival::Pending
        };
        match self.server.poll_read(room, next) {
            Poll::Ready(Ok(bytes)) => bytes,
            _ => panic!("nothing to read"),
        }
    }
}

/// Connects a client to a server.
fn wire(sim: &mut Sim, client: &str, server: &str, listener: &TcpListener, ack: u64) -> Wire {
    let dst = at(sim, server, listener.local_addr().port);
    let asked = connect(sim, client, dst, ack).unwrap();
    step(sim);
    let (there, _) = accept(sim, server, listener).unwrap();
    let here = established(sim, asked);
    Wire::new(&here, &there)
}

fn pair() -> (Sim, TcpListener) {
    let mut sim = builder().build();
    sim.client(&name("server"));
    sim.client(&name("client"));
    let listener = bind(&mut sim, "server");
    (sim, listener)
}

/// A pair that has the time to use up all ports.
fn patient_pair() -> (Sim, TcpListener) {
    let mut sim = builder()
        .simulation_duration(Duration::from_secs(60))
        .min_message_latency(Duration::from_millis(1))
        .max_message_latency(Duration::from_millis(1))
        .build();
    sim.client(&name("server"));
    sim.client(&name("client"));
    let listener = bind(&mut sim, "server");
    (sim, listener)
}

#[test]
fn network_partitions_during_connect() {
    let (mut sim, listener) = pair();
    let dst = at(&sim, "server", PORT);
    sim.partition(&name("client"), &name("server"));
    let asked = connect(&mut sim, "client", dst, 1).unwrap();
    step(&mut sim);
    assert_eq!(refusal(&sim, asked), ErrorKind::ConnectionRefused);
    assert!(accept(&mut sim, "server", &listener).is_none());

    sim.repair(&name("client"), &name("server"));
    sim.hold(&name("client"), &name("server"));
    let asked = connect(&mut sim, "client", dst, 2).unwrap();
    for _ in 0..1000 {
        step(&mut sim);
        assert!(is_waiting(&sim, asked));
    }
}

#[test]
fn network_partitions() {
    let (mut sim, _listener) = pair();
    let dst = at(&sim, "server", PORT);
    sim.partition(&name("client"), &name("server"));
    let asked = connect(&mut sim, "client", dst, 1).unwrap();
    assert_eq!(refusal(&sim, asked), ErrorKind::ConnectionRefused);
    sim.repair(&name("client"), &name("server"));
    sim.hold(&name("client"), &name("server"));
    let asked = connect(&mut sim, "client", dst, 2).unwrap();
    for _ in 0..1000 {
        step(&mut sim);
        assert!(is_waiting(&sim, asked));
    }
}

#[test]
fn tcp_ephemeral_port() {
    let mut sim = builder().build();
    sim.client(&name("client"));
    let sock = bind_to(&mut sim, "client", any(), 0).unwrap();
    assert_ne!(sock.local_addr().port, 0);
    assert!(sock.local_addr().port >= 49152);
}

#[test]
fn ephemeral_port_does_not_leak_on_server_shutdown() {
    let (mut sim, listener) = patient_pair();
    let dst = at(&sim, "server", PORT);
    for i in 49152..=(65535u64 + 1) {
        let asked = connect(&mut sim, "client", dst, i).unwrap();
        step(&mut sim);
        let (there, _) = accept(&mut sim, "server", &listener).unwrap();
        on(&mut sim, "server", |w| there.close(w));
        let here = established(&sim, asked);
        on(&mut sim, "client", |w| here.close(w));
    }
}

#[test]
fn ephemeral_port_does_not_leak_on_client_shutdown() {
    let (mut sim, listener) = patient_pair();
    let dst = at(&sim, "server", PORT);
    for i in 49152..=(65535u64 + 1) {
        let asked = connect(&mut sim, "client", dst, i).unwrap();
        step(&mut sim);
        let (there, _) = accept(&mut sim, "server", &listener).unwrap();
        let here = established(&sim, asked);
        on(&mut sim, "client", |w| here.close(w));
        on(&mut sim, "server", |w| there.close(w));
    }
}

#[test]
fn client_hangup_on_connect() {
    let (mut sim, listener) = pair();
    let dst = at(&sim, "server", PORT);
    sim.hold(&name("client"), &name("server"));
    let _given_up = connect(&mut sim, "client", dst, 1).unwrap();
    for _ in 0..1000 {
        step(&mut sim);
        assert!(accept(&mut sim, "server", &listener).is_none());
    }
    sim.release(&name("client"), &name("server"));
    step(&mut sim);
    // Nobody takes the acknowledgement.
    assert!(on(&mut sim, "server", |w| listener.poll_accept(w, 0, false)).is_none());
    for _ in 0..1000 {
        step(&mut sim);
        assert!(accept(&mut sim, "server", &listener).is_none());
    }
}

#[test]
fn hold_and_release_on_connect() {
    let (mut sim, listener) = pair();
    let dst = at(&sim, "server", PORT);
    sim.hold(&name("client"), &name("server"));
    let asked = connect(&mut sim, "client", dst, 1).unwrap();
    for _ in 0..1000 {
        step(&mut sim);
        assert!(is_waiting(&sim, asked));
    }
    sim.release(&name("client"), &name("server"));
    step(&mut sim);
    assert!(on(&mut sim, "server", |w| listener.poll_accept(w, 0, false)).is_none());
}

fn front_of_line() {
    let mut sim = builder().build();
    // We setup the simulation with hosts A, B, and C
    sim.host(&name("B"));
    sim.client(&name("A"));
    sim.client(&name("C"));
    let listener = bind(&mut sim, "B");
    let dst = at(&sim, "B", PORT);

    // Hold all traffic from A:B
    sim.hold(&name("A"), &name("B"));
    let held = connect(&mut sim, "A", dst, 1).unwrap();
    for _ in 0..1000 {
        step(&mut sim);
        assert!(is_waiting(&sim, held));
    }

    // C:B should succeed, and should not be blocked behind the A:B, which is
    // not eligible for delivery
    let asked = connect(&mut sim, "C", dst, 2).unwrap();
    step(&mut sim);
    let (_, peer) = accept(&mut sim, "B", &listener).unwrap();
    assert_eq!(peer.ip, sim.lookup(&name("C")));
    established(&sim, asked);
}

#[test]
fn tcp_accept_front_of_line_blocking() {
    front_of_line();
}

#[test]
fn net_accept_front_of_line_blocking() {
    front_of_line();
}

#[test]
fn tcp_send_upon_accept() {
    let (mut sim, listener) = pair();
    let mut w = wire(&mut sim, "client", "server", &listener, 1);
    assert!(w.server_write(&[9]).is_ok());
    assert_eq!(w.client_read(1), [9]);
}

#[test]
fn net_send_upon_accept() {
    let (mut sim, listener) = pair();
    let mut w = wire(&mut sim, "client", "server", &listener, 1);
    assert!(w.server_write(&1u16.to_be_bytes()).is_ok());
    assert_eq!(w.client_read(2), 1u16.to_be_bytes());
}

/// The server answers each number with as many bytes, counted from zero.
fn respond(w: &mut Wire) {
    let how_many = w.server_read(1)[0];
    for i in 0..how_many {
        w.server_write(&[i]).unwrap();
    }
}

#[test]
fn tcp_n_responses() {
    let (mut sim, listener) = pair();
    let mut w = wire(&mut sim, "client", "server", &listener, 1);
    let how_many = 3;
    w.client_write(&[how_many]).unwrap();
    respond(&mut w);
    for i in 0..how_many {
        assert_eq!(w.client_read(1), [i]);
    }
}

/// The server answers each number with as many words.
fn pong(w: &mut Wire) {
    let ping = w.server_read(2);
    for _ in 0..u16::from_be_bytes([ping[0], ping[1]]) {
        w.server_write(b"pong").unwrap();
    }
}

#[test]
fn net_n_responses() {
    let (mut sim, listener) = pair();
    let mut w = wire(&mut sim, "client", "server", &listener, 1);
    let how_many = 3u16;
    assert!(w.client_write(&how_many.to_be_bytes()).is_ok());
    pong(&mut w);
    for _ in 0..how_many {
        assert_eq!(w.client_read(4), b"pong");
    }
}

#[test]
fn tcp_server_concurrency() {
    let mut sim = builder().build();
    sim.host(&name("server"));
    let listener = bind(&mut sim, "server");
    let how_many = 3;
    let mut wires = vec![];
    for i in 0..how_many {
        let client = format!("client-{i}");
        sim.client(&name(&client));
        wires.push(wire(&mut sim, &client, "server", &listener, i as u64));
    }
    for w in &mut wires {
        w.client_write(&[how_many]).unwrap();
    }
    for w in &mut wires {
        respond(w);
        for i in 0..how_many {
            assert_eq!(w.client_read(1), [i]);
        }
    }
}

#[test]
fn net_server_concurrency() {
    let mut sim = builder().build();
    sim.host(&name("server"));
    let listener = bind(&mut sim, "server");
    let how_many = 3u16;
    let mut wires = vec![];
    for i in 0..how_many {
        let client = format!("client-{i}");
        sim.client(&name(&client));
        wires.push(wire(&mut sim, &client, "server", &listener, i as u64));
    }
    for w in &mut wires {
        assert!(w.client_write(&how_many.to_be_bytes()).is_ok());
    }
    for w in &mut wires {
        pong(w);
        for _ in 0..how_many {
            assert_eq!(w.client_read(4), b"pong");
        }
    }
}

#[test]
fn tcp_drop_listener() {
    let how_many_conns = 3;
    let (mut sim, listener) = pair();
    let mut conns = vec![];
    for i in 0..how_many_conns {
        conns.push(wire(&mut sim, "client", "server", &listener, i));
    }
    on(&mut sim, "server", |w| listener.close(w));
    for mut w in conns {
        let how_many = 3;
        w.client_write(&[how_many]).unwrap();
        respond(&mut w);
        for i in 0..how_many {
            assert_eq!(w.client_read(1), [i]);
        }
    }
    let dst = at(&sim, "server", 1738);
    let asked = connect(&mut sim, "client", dst, 7).unwrap();
    step(&mut sim);
    assert_eq!(refusal(&sim, asked), ErrorKind::ConnectionRefused);
}

#[test]
fn net_drop_listener() {
    let how_many_conns = 3;
    let (mut sim, listener) = pair();
    let mut conns = vec![];
    for i in 0..how_many_conns {
        conns.push(wire(&mut sim, "client", "server", &listener, i));
    }
    on(&mut sim, "server", |w| listener.close(w));
    for mut w in conns {
        let how_many = 3u16;
        w.client_write(&how_many.to_be_bytes()).unwrap();
        pong(&mut w);
        for _ in 0..how_many {
            assert_eq!(w.client_read(4), b"pong");
        }
    }
    let dst = at(&sim, "server", PORT);
    let asked = connect(&mut sim, "client", dst, 7).unwrap();
    step(&mut sim);
    assert_eq!(refusal(&sim, asked), ErrorKind::ConnectionRefused);
}

fn drop_with_queue() {
    let how_many_conns = 3;
    let tick = Duration::from_millis(10);
    let mut sim = builder().tick_duration(tick).build();
    sim.host(&name("server"));
    sim.client(&name("client"));
    let listener = bind(&mut sim, "server");
    let dst = at(&sim, "server", PORT);
    let mut conns = vec![];
    for i in 0..how_many_conns {
        conns.push(connect(&mut sim, "client", dst, i).unwrap());
    }

    // one iteration to land syns in the listener
    step(&mut sim);
    for asked in &conns {
        assert!(is_waiting(&sim, *asked));
    }
    on(&mut sim, "server", |w| listener.close(w));
    for asked in conns {
        assert_eq!(refusal(&sim, asked), ErrorKind::ConnectionRefused);
    }
}

#[test]
fn tcp_drop_listener_with_non_empty_queue() {
    drop_with_queue();
}

#[test]
fn net_drop_listener_with_non_empty_queue() {
    drop_with_queue();
}

#[test]
fn recycle_server_socket_bind() {
    let mut sim = builder().build();
    sim.client(&name("server"));
    for _ in 0..3 {
        let listener = bind_to(&mut sim, "server", any(), 1234).unwrap();
        on(&mut sim, "server", |w| listener.close(w));
    }
}

fn hang_up() {
    let (mut sim, listener) = pair();
    let mut w = wire(&mut sim, "client", "server", &listener, 1);
    let gone = w.client.close(Some(1));
    w.to_server.extend(gone);
    let Wire { mut server, mut to_server, .. } = w;
    let next = arrival(&mut to_server);
    assert!(matches!(server.poll_read(8, next), Poll::Ready(Ok(b)) if b.is_empty()));

    // Read again to ensure EOF
    assert!(matches!(server.poll_read(8, Arrival::Pending), Poll::Ready(Ok(b)) if b.is_empty()));

    // The peer has reset the connection.
    let (r, segment) = server.poll_write(&[1], None);
    assert_eq!(ErrorKind::BrokenPipe, r.unwrap_err().kind);
    assert!(segment.is_none());
}

#[test]
fn tcp_hangup() {
    hang_up();
}

#[test]
fn net_hangup() {
    hang_up();
}

fn shut_down(back: std::ops::RangeInclusive<u8>) {
    let (mut sim, listener) = pair();
    let mut w = wire(&mut sim, "client", "server", &listener, 1);
    for i in 1..=3 {
        w.client_write(&[i]).unwrap();
    }
    w.client_shutdown().unwrap();
    assert_eq!(w.client_shutdown().unwrap_err().kind, ErrorKind::NotConnected);
    assert_eq!(w.client_write(&[1]).unwrap_err().kind, ErrorKind::BrokenPipe);

    for i in 1..=3 {
        assert_eq!(w.server_read(1), [i]);
    }
    assert!(w.server_read(8).is_empty());
    for i in back.clone() {
        w.server_write(&[i]).unwrap();
    }

    // Ensure the other half is still open
    for i in back {
        assert_eq!(w.client_read(1), [i]);
    }
}

#[test]
fn tcp_shutdown_write() {
    shut_down(0..=2);
}

#[test]
fn net_shutdown_write() {
    shut_down(1..=3);
}

#[test]
fn read_with_empty_buffer() {
    let (mut sim, listener) = pair();
    let mut w = wire(&mut sim, "client", "server", &listener, 1);
    // no-op
    assert_eq!(0, w.client_read(0).len());
}

fn nothing_written() {
    let (mut sim, listener) = pair();
    let mut w = wire(&mut sim, "client", "server", &listener, 1);

    // no-op
    assert_eq!(w.client_write(&[]).unwrap(), 0);

    // actual write to ensure the server does not read EOF
    w.client_write(&[1]).unwrap();
    assert_eq!(w.server_read(1), [1]);
}

#[test]
fn tcp_write_zero_bytes() {
    nothing_written();
}

#[test]
fn net_write_zero_bytes() {
    nothing_written();
}

#[test]
fn read_buf_smaller_than_msg() {
    let (mut sim, listener) = pair();
    let mut w = wire(&mut sim, "client", "server", &listener, 1);
    w.server_write(&1234u64.to_be_bytes()).unwrap();
    w.server_write(&5678u64.to_be_bytes()).unwrap();

    // read < message len
    assert_eq!(1, w.client_read(1).len());

    // read the rest
    assert_eq!(7, w.client_read(7).len());

    // one more to fallback to polling
    assert_eq!(w.client_read(8), 5678u64.to_be_bytes());
}

#[test]
fn split() {
    let (mut sim, listener) = pair();
    let mut w = wire(&mut sim, "client", "server", &listener, 1);
    w.client_write(&[1]).unwrap();
    assert_eq!(w.server_read(1), [1]);
    w.client_shutdown().unwrap();
    assert!(w.server_read(8).is_empty());
    w.server_write(&[1]).unwrap();
    assert_eq!(w.client_read(1), [1]);

    let s1 = wire(&mut sim, "client", "server", &listener, 2).client;
    let s2 = wire(&mut sim, "client", "server", &listener, 3).client;
    let s3 = wire(&mut sim, "client", "server", &listener, 4).client;
    let (r1, w1) = s1.into_split(1);
    let (r2, w2) = s2.into_split(2);
    let e = r1.reunite(w2).err().unwrap();
    assert_eq!(
        e.message(),
        "tried to reunite halves that are not from the same socket"
    );
    assert!(w1.reunite(r2).is_err());
    let (r3, w3) = s3.into_split(3);
    assert_eq!(r3.local_addr(), w3.local_addr());
    assert_eq!(r3.peer_addr(), at(&sim, "server", PORT));
    assert!(r3.reunite(w3).is_ok());
}

#[test]
fn tcp_bind_ipv4_socket() {
    let mut sim = builder().ip_version(IpVersion::V4).build();
    sim.client(&name("client"));
    let sock = bind_to(&mut sim, "client", any(), 0).unwrap();
    assert!(sock.local_addr().ip.is_ipv4());
}

#[test]
fn tcp_bind_ipv6_socket() {
    let mut sim = builder().ip_version(IpVersion::V6).build();
    sim.client(&name("client"));
    let sock = bind_to(&mut sim, "client", any_v6(), 0).unwrap();
    assert!(sock.local_addr().ip.is_ipv6());
}

#[test]
fn ipv6_tcp_bind() {
    let mut sim = builder().ip_version(IpVersion::V6).build();
    sim.client(&name("client"));
    let sock = on(&mut sim, "client", |w| TcpListener::bind(w, &name(":::1000"))).unwrap();
    println!("{:?}", sock.local_addr());
}

#[test]
fn tcp_non_zero_bind() {
    let mut sim = builder().ip_version(IpVersion::V4).build();
    sim.client(&name("client"));
    let e = on(&mut sim, "client", |w| TcpListener::bind(w, &name("1.1.1.1:1"))).unwrap_err();
    assert_eq!(e.detail().unwrap(), b"1.1.1.1:1 is not supported");
}

#[test]
fn tcp_ipv6_connectivity() {
    let mut sim = builder().ip_version(IpVersion::V6).build();
    sim.client(&name("server"));
    sim.client(&name("client"));
    let listener = on(&mut sim, "server", |w| TcpListener::bind(w, &(name("::"), 80))).unwrap();
    let asked = on(&mut sim, "client", |w| {
        TcpStream::connect(w, &name("server:80"), 1, calm())
    })
    .unwrap();
    step(&mut sim);
    assert!(accept(&mut sim, "server", &listener).is_some());
    established(&sim, asked);
}

#[test]
fn tcp_bind_addr_in_use() {
    let mut sim = builder().build();
    sim.client(&name("server"));
    sim.client(&name("client"));
    let listener = on(&mut sim, "server", |w| {
        TcpListener::bind(w, &(name("0.0.0.0"), 80))
    })
    .unwrap();
    let e = on(&mut sim, "server", |w| TcpListener::bind(w, &(name("0.0.0.0"), 80))).unwrap_err();
    assert_eq!(e.kind, ErrorKind::AddrInUse);
    let asked = on(&mut sim, "client", |w| {
        TcpStream::connect(w, &name("server:80"), 1, calm())
    })
    .unwrap();
    step(&mut sim);
    assert!(accept(&mut sim, "server", &listener).is_some());
    established(&sim, asked);
}

fn run_localhost_test(version: IpVersion, bind_addr: SocketAddr, connect_addr: SocketAddr) {
    let mut sim = builder().ip_version(version).build();
    let expected = [0, 1, 7, 3, 8];
    sim.client(&name("client"));
    let listener = bind_to(&mut sim, "client", bind_addr.ip, bind_addr.port).unwrap();
    let asked = connect(&mut sim, "client", connect_addr, 1).unwrap();
    let (there, socket_addr) = accept(&mut sim, "client", &listener).unwrap();
    assert_eq!(socket_addr.ip, connect_addr.ip);
    assert_eq!(there.local_addr().ip, connect_addr.ip);
    assert_eq!(there.peer_addr().ip, connect_addr.ip);
    let here = established(&sim, asked);
    assert_eq!(here.local_addr().ip, connect_addr.ip);
    assert_eq!(here.peer_addr().ip, connect_addr.ip);
    let mut w = Wire::new(&here, &there);
    w.server_write(&expected).unwrap();
    assert_eq!(w.client_read(5), expected);

    // The listener is still there.
    connect(&mut sim, "client", connect_addr, 2).unwrap();
    assert!(accept(&mut sim, "client", &listener).is_some());
}

fn run_public_test(version: IpVersion, bind_addr: SocketAddr, connect_addr: SocketAddr) {
    let mut sim = builder().ip_version(version).build();
    sim.client(&name("client"));
    let listener = bind_to(&mut sim, "client", bind_addr.ip, bind_addr.port).unwrap();
    let asked = connect(&mut sim, "client", connect_addr, 1).unwrap();
    assert!(accept(&mut sim, "client", &listener).is_none());
    assert_eq!(refusal(&sim, asked), ErrorKind::ConnectionRefused);
}

fn wild_v4() -> SocketAddr {
    SocketAddr::new(any(), 1234)
}

fn local_v4() -> SocketAddr {
    SocketAddr::new(IpAddr::V4(Ipv4Addr::localhost()), 1234)
}

fn public_v4() -> SocketAddr {
    SocketAddr::new(IpAddr::V4(Ipv4Addr::new(192, 168, 0, 1)), 1234)
}

fn wild_v6() -> SocketAddr {
    SocketAddr::new(any_v6(), 1234)
}

fn local_v6() -> SocketAddr {
    SocketAddr::new(IpAddr::V6(Ipv6Addr::localhost()), 1234)
}

fn public_v6() -> SocketAddr {
    SocketAddr::new(IpAddr::V6(Ipv6Addr::new(0xfe80, 0, 0, 0, 0, 0, 0, 1)), 1234)
}

#[test]
fn tcp_loopback_to_wildcard_v4() {
    run_localhost_test(IpVersion::V4, wild_v4(), local_v4());
}

#[test]
fn tcp_loopback_to_localhost_v4() {
    run_localhost_test(IpVersion::V4, local_v4(), local_v4());
}

#[test]
fn tcp_loopback_wildcard_public_v4() {
    run_localhost_test(IpVersion::V4, wild_v4(), public_v4());
}

#[test]
fn tcp_loopback_localhost_public_v4() {
    run_public_test(IpVersion::V4, local_v4(), public_v4());
}

#[test]
fn tcp_loopback_to_wildcard_v6() {
    run_localhost_test(IpVersion::V6, wild_v6(), local_v6());
}

#[test]
fn tcp_loopback_to_localhost_v6() {
    run_localhost_test(IpVersion::V6, local_v6(), local_v6());
}

#[test]
fn tcp_loopback_wildcard_public_v6() {
    run_localhost_test(IpVersion::V6, wild_v6(), public_v6());
}

#[test]
fn tcp_loopback_localhost_public_v6() {
    run_public_test(IpVersion::V6, local_v6(), public_v6());
}

#[test]
fn remote_to_localhost_refused() {
    let mut sim = builder().build();
    sim.client(&name("server"));
    sim.client(&name("client"));
    let _listener = bind_to(&mut sim, "server", IpAddr::V4(Ipv4Addr::localhost()), 1234).unwrap();
    let asked = on(&mut sim, "client", |w| {
        TcpStream::connect(w, &(name("server"), 1234), 1, calm())
    })
    .unwrap();
    step(&mut sim);
    assert_eq!(refusal(&sim, asked), ErrorKind::ConnectionRefused);
}

#[test]
fn tcp_socket_to_nonexistent_node() {
    let mut sim = builder().build();
    sim.client(&name("client"));
    assert_eq!(
        sim.lookup(&name("client")),
        IpAddr::V4(Ipv4Addr::new(192, 168, 0, 1))
    );
    let e = on(&mut sim, "client", |w| {
        TcpStream::connect(w, &name("192.168.0.2:80"), 1, calm())
    })
    .unwrap_err();
    assert_eq!(e.kind, ErrorKind::ConnectionRefused);
    assert_eq!(e.message(), "Connection refused");
}

#[test]
fn sockets_are_counted() {
    let (mut sim, listener) = pair();
    let dst = at(&sim, "server", PORT);
    let asked = connect(&mut sim, "client", dst, 1).unwrap();
    step(&mut sim);
    let (there, _) = accept(&mut sim, "server", &listener).unwrap();
    established(&sim, asked);
    let count = |sim: &Sim, host: &str| {
        turmoil::world::established_tcp_stream_count_on(sim.world(), &name(host))
    };
    assert_eq!(count(&sim, "server"), 1);
    assert_eq!(count(&sim, "client"), 1);
    on(&mut sim, "server", |w| {
        assert_eq!(turmoil::world::established_tcp_stream_count(w), 1);
        there.close(w);
    });
    assert_eq!(count(&sim, "server"), 0);
}

#[test]
fn a_listener_wakes_its_task() {
    let (mut sim, listener) = pair();
    let dst = at(&sim, "server", PORT);
    assert!(on(&mut sim, "server", |w| listener.poll_accept(w, 42, true)).is_none());
    let server = sim.lookup(&name("server"));
    let woken = sim.world_mut().host_mut(server).receive_from_network(Envelope {
        src: SocketAddr::new(sim_client(), 5),
        dst,
        message: Protocol::Tcp(Segment::Syn(Syn { ack: 9 })),
    });
    assert_eq!(woken, Some(42));
    let front = on(&mut sim, "server", |w| listener.front(w)).unwrap();
    assert_eq!(front.0.ack, 9);
    assert_eq!(front.1.port, 5);
}

fn sim_client() -> IpAddr {
    IpAddr::V4(Ipv4Addr::new(192, 168, 0, 2))
}

#[test]
fn tcp_connectivity() {
    let mut sim = builder().build();
    sim.client(&name("alice"));
    sim.client(&name("bob"));
    let lis = on(&mut sim, "alice", |w| TcpListener::bind(w, &name("0.0.0.0:80"))).unwrap();
    let asked = on(&mut sim, "bob", |w| {
        TcpStream::connect(w, &name("192.168.0.1:80"), 1, calm())
    })
    .unwrap();
    step(&mut sim);
    let (there, _) = accept(&mut sim, "alice", &lis).unwrap();
    let here = established(&sim, asked);
    let mut w = Wire::new(&here, &there);
    w.client_write(b"Hello world!").unwrap();
    w.client_shutdown().unwrap();
    let mut s = Vec::new();
    loop {
        let part = w.server_read(5);
        if part.is_empty() {
            break;
        }
        s.extend(part);
    }
    assert_eq!(s, b"Hello world!");
}

#[test]
fn remote_dropped() {
    let mut sim = builder().build();
    sim.client(&name("client"));
    let listener = bind_to(&mut sim, "client", any(), 1234).unwrap();
    let asked = connect(&mut sim, "client", local_v4(), 1).unwrap();
    let (there, _) = accept(&mut sim, "client", &listener).unwrap();
    let here = established(&sim, asked);
    let mut w = Wire::new(&here, &there);
    let gone = w.server.close(Some(1));
    w.to_client.extend(gone);
    on(&mut sim, "client", |world| there.close(world));
    let next = arrival(&mut w.to_client);
    assert!(matches!(w.client.poll_read(8, next), Poll::Ready(Ok(b)) if b.is_empty()));
    let (r, _) = w.client.poll_write(&[1], None);
    assert_eq!(ErrorKind::BrokenPipe, r.unwrap_err().kind);
}

/// The texts of the messages on their way between two hosts.
fn in_flight(sim: &Sim, a: &str, b: &str) -> Vec<Vec<u8>> {
    let top = sim.world().topology();
    let (a, b) = (sim.lookup(&name(a)), sim.lookup(&name(b)));
    let mut links = sim.links();
    let mut out = vec![];
    while let Some(mut link) = links.next(top) {
        let (from, to) = link.pair(top);
        if (from, to) == (a, b) || (from, to) == (b, a) {
            while let Some(sent) = link.next(top) {
                out.push(sent.protocol(top).to_text());
            }
        }
    }
    out
}

/// Sends a byte from one end of a connection over the link to the other.
fn send_over(sim: &mut Sim, src: SocketAddr, dst: SocketAddr, seq: u64, bytes: &[u8]) {
    let slow = Fate { fail: false, repair: false, extra: Duration::from_millis(5) };
    let stream = turmoil::net::stream::TcpStream::new(SocketPair::new(src, dst));
    let segment = stream.poll_write(bytes, Some(seq)).1.unwrap();
    sim.world_mut().send_message(slow, src, dst, Protocol::Tcp(segment)).unwrap();
}

fn held_once_connected() {
    let (mut sim, listener) = pair();
    let mut w = wire(&mut sim, "client", "server", &listener, 1);
    let (src, dst) = (at(&sim, "server", PORT), at(&sim, "client", 49152));

    sim.hold(&name("server"), &name("client"));
    w.server_write(&[1]).unwrap();
    send_over(&mut sim, src, dst, 1, &[1]);
    for _ in 0..1000 {
        sim.world_mut().topology_mut().tick_by(Duration::from_millis(1));
        assert_eq!(in_flight(&sim, "server", "client").len(), 1);
    }

    sim.release(&name("server"), &name("client"));
    sim.world_mut().topology_mut().tick_by(Duration::from_millis(1));
    assert!(in_flight(&sim, "server", "client").is_empty());
    assert_eq!(w.client_read(1), [1]);
}

#[test]
fn tcp_hold_and_release_once_connected() {
    held_once_connected();
}

#[test]
fn net_hold_and_release_once_connected() {
    held_once_connected();
}

#[test]
fn network_partition_once_connected() {
    let (mut sim, listener) = pair();
    let _w = wire(&mut sim, "client", "server", &listener, 1);
    let (there, here) = (at(&sim, "server", PORT), at(&sim, "client", 49152));

    send_over(&mut sim, here, there, 1, &[1]);
    assert_eq!(in_flight(&sim, "client", "server").len(), 1);
    sim.world_mut().topology_mut().tick_by(Duration::from_millis(100));
    assert!(in_flight(&sim, "client", "server").is_empty());

    sim.partition(&name("server"), &name("client"));
    send_over(&mut sim, here, there, 2, &[1]);
    send_over(&mut sim, there, here, 1, &[1]);
    assert!(in_flight(&sim, "client", "server").is_empty());
}

#[test]
fn one_way_partition_once_connected() {
    let (mut sim, listener) = pair();
    let _w = wire(&mut sim, "client", "server", &listener, 1);
    let (there, here) = (at(&sim, "server", PORT), at(&sim, "client", 49152));
    sim.partition_oneway(&name("client"), &name("server"));
    send_over(&mut sim, here, there, 1, &[1]);
    assert!(in_flight(&sim, "client", "server").is_empty());
    send_over(&mut sim, there, here, 1, &[1]);
    assert_eq!(in_flight(&sim, "client", "server").len(), 1);
    sim.repair_oneway(&name("client"), &name("server"));
    send_over(&mut sim, here, there, 2, &[1]);
    assert_eq!(in_flight(&sim, "client", "server").len(), 2);
}

/// Has the data of the clients arrive at the server in the order of the trace.
fn replay(trace: [(&str, &str); 3]) {
    let mut sim = builder()
        .tick_duration(Duration::from_millis(10))
        .max_message_latency(Duration::from_millis(100))
        .min_message_latency(Duration::from_millis(100))
        .build();
    let how_many = 3;
    sim.client(&name("server"));
    let listener = bind_to(&mut sim, "server", any(), 1234).unwrap();
    let dst = at(&sim, "server", 1234);
    let mut asked = vec![];
    for i in 0..how_many {
        sim.client(&name(&format!("client-{i}")));
        asked.push(connect(&mut sim, &format!("client-{i}"), dst, i).unwrap());
    }

    // deliver all the SYNs normally
    let mut links = sim.links();
    let mut all = vec![];
    while let Some(link) = links.next(sim.world().topology()) {
        all.push(link);
    }
    for link in all {
        link.deliver_all(sim.world_mut().topology_mut());
    }
    step(&mut sim);
    let mut wires = vec![];
    for _ in 0..how_many {
        let (there, peer) = accept(&mut sim, "server", &listener).unwrap();
        let i = (0..how_many).find(|i| sim.lookup(&name(&format!("client-{i}"))) == peer.ip).unwrap();
        let here = established(&sim, asked[i as usize]);
        wires.push((format!("client-{i}"), peer, Wire::new(&here, &there)));
    }
    for (who, src, _) in &wires {
        let msg = format!("hello, world from {}", &who[7..]);
        send_over(&mut sim, *src, dst, 1, msg.as_bytes());
    }

    for (a, b) in trace {
        sim.world_mut().topology_mut().tick_by(Duration::from_millis(10));
        let ends = (sim.lookup(&name(a)), sim.lookup(&name(b)));
        let mut links = sim.links();
        while let Some(mut link) = links.next(sim.world().topology()) {
            let (from, to) = link.pair(sim.world().topology());
            if (from, to) != ends && (to, from) != ends {
                continue;
            }
            while let Some(sent) = link.next(sim.world().topology()) {
                sent.deliver(sim.world_mut().topology_mut());
            }
        }
        assert_eq!(in_flight(&sim, a, b).len(), 1);
        sim.world_mut().topology_mut().tick_by(Duration::zero());
        assert!(in_flight(&sim, a, b).is_empty());
        let (_, _, w) = wires.iter_mut().find(|(who, _, _)| who == a).unwrap();
        let msg = format!("hello, world from {}", &a[7..]);
        w.client_write(msg.as_bytes()).unwrap();
        assert_eq!(w.server_read(64), msg.as_bytes());
    }
}

#[test]
fn replay_012() {
    replay([("client-0", "server"), ("client-1", "server"), ("client-2", "server")]);
}

#[test]
fn replay_021() {
    replay([("client-0", "server"), ("client-2", "server"), ("client-1", "server")]);
}

#[test]
fn replay_120() {
    replay([("client-1", "server"), ("client-2", "server"), ("client-0", "server")]);
}

#[test]
#[should_panic(expected = "192.168.0.1:80 server socket buffer full")]
fn tcp_socket_capacity() {
    let mut sim = builder()
        .max_message_latency(Duration::from_millis(1))
        .min_message_latency(Duration::from_millis(1))
        .tcp_capacity(1)
        .build();
    sim.host(&name("server"));
    sim.client(&name("client1"));
    sim.client(&name("client2"));
    let _listener = bind_to(&mut sim, "server", any(), 80).unwrap();
    let dst = at(&sim, "server", 80);
    connect(&mut sim, "client1", dst, 1).unwrap();
    connect(&mut sim, "client2", dst, 2).unwrap();
    for _ in 0..10 {
        step(&mut sim);
        if let Some(full) = sim.world().host(dst.ip).overflow {
            let text = String::from_utf8(turmoil::text::socket_text(full)).unwrap();
            panic!("{text} server socket buffer full");
        }
    }
}

#[test]
fn a_listener_with_room_takes_requests() {
    let mut sim = builder().tcp_capacity(1).build();
    sim.host(&name("server"));
    sim.client(&name("client"));
    let listener = bind(&mut sim, "server");
    let dst = at(&sim, "server", PORT);
    for ack in 0..3 {
        connect(&mut sim, "client", dst, ack).unwrap();
        step(&mut sim);
        assert!(accept(&mut sim, "server", &listener).is_some());
    }
    assert!(sim.world().host(dst.ip).overflow.is_none());
}

/// Has the server give back what the client sends.
fn echo(w: &mut Wire, bytes: &[u8]) {
    w.client_write(bytes).unwrap();
    let got = w.server_read(1024);
    w.server_write(&got).unwrap();
    assert_eq!(w.client_read(1024), bytes);
}

#[test]
fn tcp_echo() {
    let mut sim = builder().simulation_duration(Duration::from_secs(20)).build();
    let clients = 5u64;
    sim.host(&name("server"));
    for i in 0..clients {
        sim.client(&name(&format!("client-{i}")));
    }
    let mut listener = Some(bind_to(&mut sim, "server", any(), 8080).unwrap());
    for second in 0..10u64 {
        if second == 5 {
            let gone = listener.take().unwrap();
            on(&mut sim, "server", |w| gone.close(w));
            sim.crash(&name("server"));
            assert!(!sim.is_host_running(&name("server")));
        }
        if second == 8 {
            sim.bounce(&name("server"));
            assert!(sim.is_host_running(&name("server")));
            listener = Some(bind_to(&mut sim, "server", any(), 8080).unwrap());
        }
        for i in 0..clients {
            let who = format!("client-{i}");
            let ack = second * clients + i;
            match &listener {
                Some(l) => {
                    let mut w = wire(&mut sim, &who, "server", l, ack);
                    echo(&mut w, format!("{second} {i}").as_bytes());
                }
                None => {
                    let dst = at(&sim, "server", 8080);
                    let asked = connect(&mut sim, &who, dst, ack).unwrap();
                    step(&mut sim);
                    assert!(is_waiting(&sim, asked));
                }
            }
        }
        for _ in 0..990 {
            step(&mut sim);
        }
    }
}

#[test]
fn tcp_interface_exclusivity() {
    let mut sim = builder().ip_version(IpVersion::V6).build();
    sim.client(&name("alice"));
    sim.client(&name("bob"));
    let listener = on(&mut sim, "alice", |w| TcpListener::bind(w, &name(":::80"))).unwrap();
    let asked = on(&mut sim, "bob", |w| TcpStream::connect(w, &name("fe80::1:80"), 1, calm()));
    let asked = asked.unwrap();
    step(&mut sim);
    let (there, _) = accept(&mut sim, "alice", &listener).unwrap();
    let here = established(&sim, asked);
    assert!(here.local_addr().is_ipv6());
    let mut w = Wire::new(&here, &there);
    w.client_write(b"Hello world!").unwrap();
    assert_eq!(w.server_read(128), b"Hello world!");
}
