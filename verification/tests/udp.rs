//! Datagrams between hosts.
use turmoil::addr::{IpAddr, Ipv4Addr, Ipv6Addr, SocketAddr};
use turmoil::builder::Builder;
use turmoil::envelope::{Datagram, Envelope, Protocol};
use turmoil::error::{Error, ErrorKind};
use turmoil::ip::IpVersion;
use turmoil::net::udp::UdpSocket;
use turmoil::sim::Sim;
use turmoil::time::Duration;
use turmoil::top::Fate;
use turmoil::world::World;

const PORT: u16 = 1738;

fn builder() -> Builder {
    Builder::new(Duration::zero())
}

fn name(s: &str) -> Vec<u8> {
    s.as_bytes().to_vec()
}

fn v4(a: u8, b: u8, c: u8, d: u8) -> IpAddr {
    IpAddr::V4(Ipv4Addr::new(a, b, c, d))
}

fn any() -> IpAddr {
    IpAddr::V4(Ipv4Addr::unspecified())
}

fn calm() -> Fate {
    Fate { fail: false, repair: false, extra: Duration::zero() }
}

/// Runs something as the software of a host.
fn on<R>(sim: &mut Sim, host: &str, f: impl FnOnce(&mut World) -> R) -> R {
    let addr = sim.lookup(&name(host));
    sim.world_mut().set_current(Some(addr));
    let r = f(sim.world_mut());
    sim.world_mut().set_current(None);
    r
}

/// A step in which no software does anything.
fn step(sim: &mut Sim) {
    let (running, stopped) = sim.begin_step();
    let clock = sim.elapsed();
    let mut is_finished = true;
    for addr in running {
        sim.enter_host(addr, clock);
        is_finished = sim.leave_host(addr, None).unwrap() && is_finished;
    }
    sim.end_step(&stopped, is_finished).unwrap();
}

fn bind_to(sim: &mut Sim, host: &str, ip: IpAddr, port: u16) -> Result<UdpSocket, Error> {
    on(sim, host, |w| UdpSocket::bind(w, &(ip, port)))
}

fn bind(sim: &mut Sim, host: &str) -> UdpSocket {
    bind_to(sim, host, any(), PORT).unwrap()
}

/// Sends a datagram, and hands it over where it stays within the host.
fn send(sim: &mut Sim, host: &str, sock: &UdpSocket, data: &[u8], dst: SocketAddr) -> Result<usize, Error> {
    let sent = on(sim, host, |w| {
        let how_many = sock.destinations(w, dst).map(|d| d.len()).unwrap_or(0);
        let fates: Vec<Fate> = (0..how_many).map(|_| calm()).collect();
        sock.send_to(w, data, &dst, &fates)
    });
    for to in &sent.loopbacks {
        let addr = sim.lookup(&name(host));
        sim.world_mut().host_mut(addr).receive_from_network(Envelope {
            src: sent.src,
            dst: *to,
            message: Protocol::Udp(Datagram::new(data)),
        });
    }
    sent.result
}

fn recv(sim: &mut Sim, host: &str, sock: &mut UdpSocket, buf: &mut [u8]) -> Result<(usize, SocketAddr), Error> {
    on(sim, host, |w| sock.try_recv_from(w, buf))
}

fn server(sim: &Sim) -> SocketAddr {
    SocketAddr::new(sim.lookup(&name("server")), PORT)
}

fn send_ping(sim: &mut Sim, host: &str, sock: &UdpSocket) -> Result<usize, Error> {
    let dst = server(sim);
    send(sim, host, sock, b"ping", dst)
}

fn recv_word(sim: &mut Sim, host: &str, sock: &mut UdpSocket, word: &[u8]) -> Result<SocketAddr, Error> {
    let mut buf = vec![123; 8];
    let (_, origin) = recv(sim, host, sock, &mut buf)?;
    assert_eq!(word, &buf[..4]);
    assert_eq!(&[123; 4], &buf[4..]);
    Ok(origin)
}

#[test]
fn udp_ping_pong() {
    let mut sim = builder().build();
    sim.client(&name("server"));
    sim.client(&name("client"));
    let mut at_server = bind(&mut sim, "server");
    let mut at_client = bind(&mut sim, "client");
    assert_eq!(send_ping(&mut sim, "client", &at_client).unwrap(), 4);
    step(&mut sim);
    let origin = recv_word(&mut sim, "server", &mut at_server, b"ping").unwrap();
    assert_eq!(origin, SocketAddr::new(sim.lookup(&name("client")), PORT));
    send(&mut sim, "server", &at_server, b"pong", origin).unwrap();
    step(&mut sim);
    recv_word(&mut sim, "client", &mut at_client, b"pong").unwrap();
}

#[test]
fn udp_ephemeral_port() {
    let mut sim = builder().build();
    sim.client(&name("client"));
    let sock = bind_to(&mut sim, "client", any(), 0).unwrap();
    assert_ne!(sock.local_addr().port, 0);
    assert!(sock.local_addr().port >= 49152);
}

#[test]
fn try_ping_pong() {
    let mut sim = builder().build();
    sim.client(&name("server"));
    sim.client(&name("client"));
    let mut at_server = bind(&mut sim, "server");
    let mut at_client = bind(&mut sim, "client");
    assert!(!on(&mut sim, "server", |w| at_server.readable(w)));
    let mut buf = [0; 8];
    let e = recv(&mut sim, "server", &mut at_server, &mut buf).unwrap_err();
    assert_eq!(e.kind, ErrorKind::WouldBlock);

    let dst = server(&sim);
    let sent = on(&mut sim, "client", |w| {
        at_client.try_send_to(w, b"ping", &dst, &vec![calm()])
    });
    assert_eq!(sent.result.unwrap(), 4);
    step(&mut sim);
    assert!(on(&mut sim, "server", |w| at_server.readable(w)));
    let origin = recv_word(&mut sim, "server", &mut at_server, b"ping").unwrap();
    let sent = on(&mut sim, "server", |w| {
        at_server.try_send_to(w, b"pong", &origin, &vec![calm()])
    });
    assert_eq!(sent.result.unwrap(), 4);
    step(&mut sim);
    assert!(on(&mut sim, "client", |w| at_client.readable(w)));
    recv_word(&mut sim, "client", &mut at_client, b"pong").unwrap();
}

#[test]
fn recv_buf_is_clipped() {
    let mut sim = builder().build();
    sim.client(&name("server"));
    sim.client(&name("client"));
    let mut at_server = bind(&mut sim, "server");
    let at_client = bind(&mut sim, "client");
    let dst = server(&sim);
    send(&mut sim, "client", &at_client, b"hello, world", dst).unwrap();
    step(&mut sim);
    let mut buf = vec![0; 8];
    recv(&mut sim, "server", &mut at_server, &mut buf).unwrap();
    assert_eq!(b"hello, w", &buf[..]);
}

#[test]
fn hold_and_release() {
    let mut sim = builder().build();
    sim.host(&name("server"));
    sim.client(&name("client"));
    let mut at_server = bind(&mut sim, "server");
    let mut at_client = bind(&mut sim, "client");

    // pause delivery of packets between the client and server
    sim.hold(&name("client"), &name("server"));
    send_ping(&mut sim, "client", &at_client).unwrap();
    for _ in 0..1000 {
        step(&mut sim);
        assert!(recv_word(&mut sim, "server", &mut at_server, b"ping").is_err());
    }

    // resume the network. note that the client ping does not have to be
    // resent.
    sim.release(&name("client"), &name("server"));
    step(&mut sim);
    let origin = recv_word(&mut sim, "server", &mut at_server, b"ping").unwrap();
    send(&mut sim, "server", &at_server, b"pong", origin).unwrap();
    step(&mut sim);
    recv_word(&mut sim, "client", &mut at_client, b"pong").unwrap();
}

#[test]
fn udp_network_partition() {
    let mut sim = builder().build();
    sim.host(&name("server"));
    sim.client(&name("client"));
    let mut at_server = bind(&mut sim, "server");
    let at_client = bind(&mut sim, "client");

    // introduce the partition
    sim.partition(&name("client"), &name("server"));
    send_ping(&mut sim, "client", &at_client).unwrap();
    for _ in 0..1000 {
        step(&mut sim);
        assert!(recv_word(&mut sim, "server", &mut at_server, b"ping").is_err());
    }
}

#[test]
fn udp_bounce() {
    let mut sim = builder().build();
    sim.host(&name("server"));
    let mut at_server = bind(&mut sim, "server");
    for i in 0..3u16 {
        let client = format!("client-{i}");
        sim.client(&name(&client));
        let mut at_client = bind_to(&mut sim, &client, any(), PORT + i).unwrap();
        send_ping(&mut sim, &client, &at_client).unwrap();
        step(&mut sim);
        // The server always thinks it has only served one request.
        let mut reqs = 0;
        while let Ok(origin) = recv_word(&mut sim, "server", &mut at_server, b"ping") {
            reqs += 1;
            send(&mut sim, "server", &at_server, b"pong", origin).unwrap();
        }
        step(&mut sim);
        recv_word(&mut sim, &client, &mut at_client, b"pong").unwrap();
        assert_eq!(1, reqs);
        // The sockets of the software that is restarted are gone.
        on(&mut sim, "server", |w| at_server.close(w));
        assert_eq!(sim.bounce(&name("server")).len(), 1);
        at_server = bind(&mut sim, "server");
    }
}

#[test]
fn bulk_transfer() {
    // set the latency to a well-known value
    let latency = Duration::from_millis(1);
    // perform several rounds of sending packets and sleeping for the latency
    let send_rounds = 10;
    // the UDP socket currently has a queue size of 64 packets; it should drop any packets that
    // exceed this amount.
    let queue_size = 64;
    // for each send round, we'll send double the number of packets that can be received by the
    // peer.
    let send_batch_size = queue_size * 2;

    let mut sim = builder()
        .min_message_latency(latency)
        .max_message_latency(latency)
        .build();
    sim.client(&name("server"));
    sim.client(&name("client"));
    let mut at_server = bind_to(&mut sim, "server", any(), 123).unwrap();
    let at_client = bind_to(&mut sim, "client", any(), 456).unwrap();
    let dst = SocketAddr::new(sim.lookup(&name("server")), 123);
    let mut total = 0;
    for _ in 0..send_rounds {
        for _ in 0..send_batch_size {
            send(&mut sim, "client", &at_client, b"ping", dst).unwrap();
        }
        step(&mut sim);
        while recv_word(&mut sim, "server", &mut at_server, b"ping").is_ok() {
            total += 1;
        }
    }

    // the receiver should be bounded by its queue size
    assert_eq!(total, send_rounds * queue_size);
}

#[test]
fn udp_bind_ipv4_socket() {
    let mut sim = builder().ip_version(IpVersion::V4).build();
    sim.client(&name("client"));
    let sock = bind_to(&mut sim, "client", any(), 0).unwrap();
    assert!(sock.local_addr().ip.is_ipv4());
}

#[test]
fn udp_bind_ipv6_socket() {
    let mut sim = builder().ip_version(IpVersion::V6).build();
    sim.client(&name("client"));
    let sock = bind_to(&mut sim, "client", IpAddr::V6(Ipv6Addr::unspecified()), 0).unwrap();
    assert!(sock.local_addr().ip.is_ipv6());
}

#[test]
fn udp_non_zero_bind() {
    let mut sim = builder().ip_version(IpVersion::V4).build();
    sim.client(&name("client"));
    let e = on(&mut sim, "client", |w| UdpSocket::bind(w, &name("1.1.1.1:1")))
        .err()
        .unwrap();
    assert_eq!(e.kind, ErrorKind::AddrNotAvailable);
    assert_eq!(e.detail().unwrap(), b"1.1.1.1:1 is not supported");
}

#[test]
fn udp_ipv6_connectivity() {
    let mut sim = builder().ip_version(IpVersion::V6).build();
    sim.client(&name("server"));
    sim.client(&name("client"));
    let mut at_server = on(&mut sim, "server", |w| UdpSocket::bind(w, &name(":::80"))).unwrap();
    let at_client = on(&mut sim, "client", |w| UdpSocket::bind(w, &name(":::0"))).unwrap();
    let sent = on(&mut sim, "client", |w| {
        at_client.send_to(w, &[1], &name("server:80"), &vec![calm()])
    });
    sent.result.unwrap();
    step(&mut sim);
    let mut buf = [0; 512];
    let (n, _) = recv(&mut sim, "server", &mut at_server, &mut buf).unwrap();
    assert_eq!(&buf[..n], &[1]);
}

#[test]
fn ipv6_udp_bind() {
    let mut sim = builder().ip_version(IpVersion::V6).build();
    sim.client(&name("client"));
    let sock = on(&mut sim, "client", |w| UdpSocket::bind(w, &name(":::0"))).unwrap();
    println!("{:?}", sock.local_addr());
}

#[test]
fn udp_bind_addr_in_use() {
    let mut sim = builder().build();
    sim.client(&name("server"));
    sim.client(&name("client"));
    let mut listener = on(&mut sim, "server", |w| {
        UdpSocket::bind(w, &(name("0.0.0.0"), 80))
    })
    .unwrap();
    let result = on(&mut sim, "server", |w| UdpSocket::bind(w, &(name("0.0.0.0"), 80)));
    let e = result.err().unwrap();
    assert_eq!(e.kind, ErrorKind::AddrInUse);
    assert_eq!(e.detail().unwrap(), b"0.0.0.0:80");

    let socket = on(&mut sim, "client", |w| UdpSocket::bind(w, &(name("0.0.0.0"), 0))).unwrap();
    let sent = on(&mut sim, "client", |w| {
        socket.send_to(w, &[0], &(name("server"), 80), &vec![calm()])
    });
    sent.result.unwrap();
    step(&mut sim);
    let mut buf = [0];
    recv(&mut sim, "server", &mut listener, &mut buf).unwrap();
}

fn run_localhost_test(version: IpVersion, bind_addr: SocketAddr, connect_addr: SocketAddr) {
    let mut sim = builder().ip_version(version).build();
    let expected = [0, 1, 7, 3, 8];
    sim.client(&name("client"));
    let mut socket = on(&mut sim, "client", |w| UdpSocket::bind(w, &bind_addr)).unwrap();
    let other = SocketAddr::new(bind_addr.ip, 0);
    let mut own = on(&mut sim, "client", |w| UdpSocket::bind(w, &other)).unwrap();
    send(&mut sim, "client", &own, &expected, connect_addr).unwrap();

    let mut buf = [0; 5];
    let (_, peer) = recv(&mut sim, "client", &mut socket, &mut buf).unwrap();
    assert_eq!(expected, buf);
    assert_eq!(peer.ip, connect_addr.ip);
    assert_eq!(socket.local_addr().ip, bind_addr.ip);
    send(&mut sim, "client", &socket, &expected, peer).unwrap();

    let mut buf = [0; 5];
    let (_, peer) = recv(&mut sim, "client", &mut own, &mut buf).unwrap();
    assert_eq!(expected, buf);
    assert_eq!(peer.ip, connect_addr.ip);
}

fn run_public_test(version: IpVersion, bind_addr: SocketAddr, connect_addr: SocketAddr) {
    let mut sim = builder().ip_version(version).build();
    let expected = [0, 1, 7, 3, 8];
    sim.client(&name("client"));
    let _socket = on(&mut sim, "client", |w| UdpSocket::bind(w, &bind_addr)).unwrap();
    let other = SocketAddr::new(bind_addr.ip, 0);
    let own = on(&mut sim, "client", |w| UdpSocket::bind(w, &other)).unwrap();
    let e = send(&mut sim, "client", &own, &expected, connect_addr).unwrap_err();
    assert_eq!(e.kind, ErrorKind::ConnectionRefused);
}

fn wild_v4() -> SocketAddr {
    SocketAddr::new(any(), 1234)
}

fn local_v4() -> SocketAddr {
    SocketAddr::new(IpAddr::V4(Ipv4Addr::localhost()), 1234)
}

fn public_v4() -> SocketAddr {
    SocketAddr::new(v4(192, 168, 0, 1), 1234)
}

fn wild_v6() -> SocketAddr {
    SocketAddr::new(IpAddr::V6(Ipv6Addr::unspecified()), 1234)
}

fn local_v6() -> SocketAddr {
    SocketAddr::new(IpAddr::V6(Ipv6Addr::localhost()), 1234)
}

fn public_v6() -> SocketAddr {
    SocketAddr::new(IpAddr::V6(Ipv6Addr::new(0xfe80, 0, 0, 0, 0, 0, 0, 1)), 1234)
}

#[test]
fn udp_loopback_to_wildcard_v4() {
    run_localhost_test(IpVersion::V4, wild_v4(), local_v4());
}

#[test]
fn udp_loopback_to_localhost_v4() {
    run_localhost_test(IpVersion::V4, local_v4(), local_v4());
}

#[test]
fn udp_loopback_wildcard_public_v4() {
    run_localhost_test(IpVersion::V4, wild_v4(), public_v4());
}

#[test]
fn udp_loopback_localhost_public_v4() {
    run_public_test(IpVersion::V4, local_v4(), public_v4());
}

#[test]
fn udp_loopback_to_wildcard_v6() {
    run_localhost_test(IpVersion::V6, wild_v6(), local_v6());
}

#[test]
fn udp_loopback_to_localhost_v6() {
    run_localhost_test(IpVersion::V6, local_v6(), local_v6());
}

#[test]
fn udp_loopback_wildcard_public_v6() {
    run_localhost_test(IpVersion::V6, wild_v6(), public_v6());
}

#[test]
fn udp_loopback_localhost_public_v6() {
    run_public_test(IpVersion::V6, local_v6(), public_v6());
}

#[test]
fn remote_to_localhost_dropped() {
    let mut sim = builder().build();
    sim.client(&name("server"));
    sim.client(&name("client"));
    let mut at_server = on(&mut sim, "server", |w| {
        UdpSocket::bind(w, &(Ipv4Addr::localhost(), 1234))
    })
    .unwrap();
    let at_client = bind_to(&mut sim, "client", any(), 1234).unwrap();
    let sent = on(&mut sim, "client", |w| {
        at_client.send_to(w, &[0], &(name("server"), 1234), &vec![calm()])
    });
    sent.result.unwrap();
    for _ in 0..1000 {
        step(&mut sim);
        let mut buf = [0; 4];
        assert!(recv(&mut sim, "server", &mut at_server, &mut buf).is_err());
    }
}

#[test]
fn udp_socket_capacity() {
    let mut sim = builder()
        .min_message_latency(Duration::from_millis(1))
        .max_message_latency(Duration::from_millis(1))
        .udp_capacity(1)
        .build();
    sim.client(&name("server"));
    sim.client(&name("client"));
    let mut at_server = bind(&mut sim, "server");
    let at_client = bind(&mut sim, "client");
    send_ping(&mut sim, "client", &at_client).unwrap();
    send_ping(&mut sim, "client", &at_client).unwrap(); // dropped
    step(&mut sim);
    recv_word(&mut sim, "server", &mut at_server, b"ping").unwrap();
    for _ in 0..1000 {
        step(&mut sim);
        assert!(recv_word(&mut sim, "server", &mut at_server, b"ping").is_err());
    }
}

#[test]
fn udp_socket_to_nonexistent_node() {
    let mut sim = builder().build();
    sim.client(&name("client"));
    assert_eq!(sim.lookup(&name("client")), v4(192, 168, 0, 1));
    let sock = on(&mut sim, "client", |w| UdpSocket::bind(w, &name("0.0.0.0:0"))).unwrap();
    let sent = on(&mut sim, "client", |w| {
        sock.send_to(w, b"Hello world!", &name("192.168.0.2:80"), &vec![calm()])
    });
    let e = sent.result.unwrap_err();
    assert_eq!(e.kind, ErrorKind::ConnectionRefused);
    assert_eq!(e.message(), "Connection refused");
}

#[test]
fn versions_do_not_mix() {
    let mut sim = builder().build();
    sim.client(&name("client"));
    let sock = bind(&mut sim, "client");
    let e = send(&mut sim, "client", &sock, b"Never", wild_v6()).unwrap_err();
    assert_eq!(e.kind, ErrorKind::InvalidInput);
}

#[test]
fn broadcast_reaches_every_host_with_a_socket() {
    let mut sim = builder().build();
    sim.client(&name("a"));
    sim.client(&name("b"));
    sim.client(&name("c"));
    let mut at_a = bind(&mut sim, "a");
    let mut at_b = bind(&mut sim, "b");
    let dst = SocketAddr::new(v4(255, 255, 255, 255), PORT);
    let e = send(&mut sim, "a", &at_a, b"all!", dst).unwrap_err();
    assert_eq!(e.kind, ErrorKind::PermissionDenied);
    assert!(!on(&mut sim, "a", |w| at_a.broadcast(w)));
    on(&mut sim, "a", |w| at_a.set_broadcast(w, true));
    assert!(on(&mut sim, "a", |w| at_a.broadcast(w)));
    send(&mut sim, "a", &at_a, b"all!", dst).unwrap();
    step(&mut sim);
    recv_word(&mut sim, "a", &mut at_a, b"all!").unwrap();
    recv_word(&mut sim, "b", &mut at_b, b"all!").unwrap();
}

#[test]
fn groups_are_reached() {
    let mut sim = builder().build();
    sim.client(&name("a"));
    sim.client(&name("b"));
    let mut at_a = bind(&mut sim, "a");
    let mut at_b = bind(&mut sim, "b");
    let group = Ipv4Addr::new(224, 1, 1, 1);
    let anywhere = Ipv4Addr::unspecified();
    on(&mut sim, "a", |w| at_a.join_multicast_v4(w, group, anywhere)).unwrap();
    on(&mut sim, "b", |w| at_b.join_multicast_v4(w, group, anywhere)).unwrap();
    let dst = SocketAddr::new(IpAddr::V4(group), PORT);
    assert!(on(&mut sim, "a", |w| at_a.multicast_loop_v4(w)));
    send(&mut sim, "a", &at_a, b"some", dst).unwrap();
    step(&mut sim);
    recv_word(&mut sim, "a", &mut at_a, b"some").unwrap();
    recv_word(&mut sim, "b", &mut at_b, b"some").unwrap();

    // The sender need not hear itself.
    on(&mut sim, "a", |w| at_a.set_multicast_loop_v4(w, false));
    send(&mut sim, "a", &at_a, b"some", dst).unwrap();
    step(&mut sim);
    assert!(recv_word(&mut sim, "a", &mut at_a, b"some").is_err());
    recv_word(&mut sim, "b", &mut at_b, b"some").unwrap();

    on(&mut sim, "b", |w| at_b.leave_multicast_v4(w, group, anywhere)).unwrap();
    let e = on(&mut sim, "b", |w| at_b.leave_multicast_v4(w, group, anywhere)).unwrap_err();
    assert_eq!(e.kind, ErrorKind::AddrNotAvailable);
    send(&mut sim, "a", &at_a, b"some", dst).unwrap();
    step(&mut sim);
    assert!(recv_word(&mut sim, "b", &mut at_b, b"some").is_err());

    let e = on(&mut sim, "a", |w| at_a.join_multicast_v4(w, Ipv4Addr::localhost(), anywhere))
        .unwrap_err();
    assert_eq!(e.kind, ErrorKind::InvalidInput);
    let e = on(&mut sim, "a", |w| at_a.join_multicast_v4(w, group, Ipv4Addr::new(1, 1, 1, 1)))
        .unwrap_err();
    assert_eq!(e.kind, ErrorKind::AddrNotAvailable);
}

#[test]
fn a_closed_socket_frees_its_port_and_groups() {
    let mut sim = builder().build();
    sim.client(&name("a"));
    let sock = bind(&mut sim, "a");
    let group = Ipv4Addr::new(224, 1, 1, 1);
    on(&mut sim, "a", |w| sock.join_multicast_v4(w, group, Ipv4Addr::unspecified())).unwrap();
    assert_eq!(sim.world().groups().len(), 1);
    on(&mut sim, "a", |w| sock.close(w));
    assert_eq!(sim.world().groups().len(), 0);
    bind(&mut sim, "a");
}

#[test]
fn long_addresses_have_groups_too() {
    let mut sim = builder().ip_version(IpVersion::V6).build();
    sim.client(&name("a"));
    sim.client(&name("b"));
    let any = IpAddr::V6(Ipv6Addr::unspecified());
    let at_a = bind_to(&mut sim, "a", any, PORT).unwrap();
    let mut at_b = bind_to(&mut sim, "b", any, PORT).unwrap();
    let group = Ipv6Addr::new(0xff08, 0, 0, 0, 0, 0, 0, 1);
    on(&mut sim, "b", |w| at_b.join_multicast_v6(w, group, 0)).unwrap();
    let e = on(&mut sim, "b", |w| at_b.join_multicast_v6(w, group, 3)).unwrap_err();
    assert_eq!(e.kind, ErrorKind::AddrNotAvailable);
    let dst = SocketAddr::new(IpAddr::V6(group), PORT);
    send(&mut sim, "a", &at_a, b"some", dst).unwrap();
    step(&mut sim);
    recv_word(&mut sim, "b", &mut at_b, b"some").unwrap();
    assert!(on(&mut sim, "b", |w| at_b.multicast_loop_v6(w)));
    on(&mut sim, "b", |w| at_b.set_multicast_loop_v6(w, false));
    assert!(!on(&mut sim, "b", |w| at_b.multicast_loop_v6(w)));
    on(&mut sim, "b", |w| at_b.leave_multicast_v6(w, group, 0)).unwrap();
    assert_eq!(sim.world().groups().len(), 0);
}

/// Has the server answer every ping that has arrived.
fn answer(sim: &mut Sim, sock: &mut UdpSocket) -> usize {
    let mut reqs = 0;
    while let Ok(origin) = recv_word(sim, "server", sock, b"ping") {
        reqs += 1;
        send(sim, "server", sock, b"pong", origin).unwrap();
    }
    reqs
}

#[test]
fn ping_pong_ping_pong() {
    let mut sim = builder().build();
    sim.host(&name("server"));
    sim.client(&name("client"));
    let mut at_server = bind(&mut sim, "server");
    let mut at_client = bind(&mut sim, "client");
    send_ping(&mut sim, "client", &at_client).unwrap();
    step(&mut sim);
    assert_eq!(answer(&mut sim, &mut at_server), 1);
    step(&mut sim);
    recv_word(&mut sim, "client", &mut at_client, b"pong").unwrap();
}

#[test]
fn ping_pong_network_partition() {
    let mut sim = builder().build();
    sim.host(&name("server"));
    sim.client(&name("client"));
    let mut at_server = bind(&mut sim, "server");
    let mut at_client = bind(&mut sim, "client");
    // introduce the partition
    sim.partition(&name("client"), &name("server"));
    send_ping(&mut sim, "client", &at_client).unwrap();
    for _ in 0..1000 {
        step(&mut sim);
        assert_eq!(answer(&mut sim, &mut at_server), 0);
        assert!(recv_word(&mut sim, "client", &mut at_client, b"pong").is_err());
    }
}

#[test]
fn ping_pong_bounce() {
    let mut sim = builder().build();
    sim.host(&name("server"));
    for i in 0..3 {
        let client = format!("client-{}", i);
        sim.client(&name(&client));
        let mut at_server = bind(&mut sim, "server");
        let mut at_client = bind(&mut sim, &client);
        send_ping(&mut sim, &client, &at_client).unwrap();
        step(&mut sim);
        // The server always thinks it has only server 1 request.
        assert_eq!(1, answer(&mut sim, &mut at_server));
        step(&mut sim);
        recv_word(&mut sim, &client, &mut at_client, b"pong").unwrap();
        on(&mut sim, "server", |w| at_server.close(w));
        assert_eq!(sim.bounce(&name("server")), vec![sim.lookup(&name("server"))]);
    }
}
