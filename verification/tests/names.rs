//! Names, addresses, hosts and groups.
use turmoil::addr::{IpAddr, Ipv4Addr, Ipv6Addr, SocketAddr};
use turmoil::dns::{Dns, ToSocketAddrs};
use turmoil::envelope::{Datagram, Envelope, Protocol};
use turmoil::error::ErrorKind;
use turmoil::host::{Host, Udp};
use turmoil::ip::{IpSubnet, IpSubnets, IpVersion, Ipv4Subnet};
use turmoil::net::groups::MulticastGroups;
use turmoil::node::NodeIdentifer;
use turmoil::pattern::Pattern;
use turmoil::text::{ip_text, parse_ip, parse_socket_addr, socket_text};

fn dns() -> Dns {
    Dns::new(IpVersion::V4.iter(), IpSubnets::new())
}

fn name(s: &str) -> Vec<u8> {
    s.as_bytes().to_vec()
}

fn socket(s: &str) -> SocketAddr {
    parse_socket_addr(s.as_bytes()).unwrap()
}

#[test]
fn parse_str() {
    let mut dns = dns();
    let (_, generated_addr) = dns.register_legacy(&name("foo"));
    let hostname_port = name("foo:5000").to_socket_addr(&dns).unwrap();
    let ipv4_port = name("127.0.0.1:5000");
    let ipv6_port = name("[::1]:5000");
    assert_eq!(hostname_port, SocketAddr::new(generated_addr, 5000));
    assert_eq!(
        ipv4_port.to_socket_addr(&dns).unwrap(),
        SocketAddr::new(IpAddr::V4(Ipv4Addr::localhost()), 5000)
    );
    assert_eq!(
        ipv6_port.to_socket_addr(&dns).unwrap(),
        SocketAddr::new(IpAddr::V6(Ipv6Addr::localhost()), 5000)
    );
}

#[test]
fn raw_value_parsing() {
    // lookups of raw ip addrs should be consistent
    // between to_ip_addr() and to_socket_addr()
    // for text and addresses
    let dns = dns();
    let addr = dns.lookup(&Ipv4Addr::new(192, 168, 2, 2));
    assert_eq!(addr, IpAddr::V4(Ipv4Addr::new(192, 168, 2, 2)));
    let addr = dns.lookup(&name("192.168.3.3"));
    assert_eq!(addr, IpAddr::V4(Ipv4Addr::new(192, 168, 3, 3)));
    let addr = name("192.168.3.3:0").to_socket_addr(&dns).unwrap();
    assert_eq!(addr.ip, IpAddr::V4(Ipv4Addr::new(192, 168, 3, 3)));
}

#[test]
fn names_are_found_both_ways() {
    let mut dns = dns();
    let (foo, a) = dns.register_legacy(&name("foo"));
    let (_, b) = dns.register_legacy(&name("bar"));
    assert_ne!(a, b);
    assert_eq!(foo, b"foo");
    assert_eq!(dns.lookup(&name("foo")), a);
    assert_eq!(dns.reverse(a), Some(name("foo")));
    assert_eq!(dns.reverse(b), Some(name("bar")));
    assert_eq!(dns.reverse(IpAddr::V4(Ipv4Addr::localhost())), None);
    assert_eq!(dns.names(), vec![name("foo"), name("bar")]);
    // A name that is known keeps its address.
    assert_eq!(dns.register_legacy(&name("foo")).1, a);
    assert_eq!(dns.lookup_many(&Pattern::new("^f").unwrap()), vec![a]);
    assert_eq!(dns.lookup_many(&Pattern::new("o|a").unwrap()), vec![a, b]);
    assert_eq!(dns.addrs_of(&vec![false, true]), vec![b]);
}

#[test]
fn each_subnet_gives_an_address() {
    let mut subnets = IpSubnets::new();
    subnets.add(IpSubnet::V4(Ipv4Subnet::new(Ipv4Addr::new(192, 168, 0, 0), 16)));
    subnets.add(IpSubnet::V4(Ipv4Subnet::new(Ipv4Addr::new(10, 1, 0, 0), 16)));
    let mut dns = Dns::new(IpVersion::V4.iter(), subnets);
    let v4 = |a, b, c, d| IpAddr::V4(Ipv4Addr::new(a, b, c, d));
    assert_eq!(dns.register(b"bob", &vec![]), vec![v4(192, 168, 0, 1), v4(10, 1, 0, 1)]);
    assert_eq!(dns.register(b"alice", &vec![]), vec![v4(192, 168, 0, 2), v4(10, 1, 0, 2)]);
    // A subnet in which the host has chosen an address gives none.
    let fixed = v4(192, 168, 0, 42);
    let got = dns.register(b"carol", &vec![fixed]);
    assert!(got.contains(&fixed));
    assert_eq!(got.len(), 2);
    assert_eq!(dns.reverse(fixed), Some(name("carol")));
}

#[test]
fn addresses_read_back() {
    for t in ["0.0.0.0", "255.255.255.255", "192.168.0.1", "::", "::1", "fe80::1", "1:2:3:4:5:6:7:8", "2001:db8::ff00:42:8329"] {
        let a = parse_ip(t.as_bytes()).unwrap();
        assert_eq!(ip_text(a), t.as_bytes());
    }
    for t in ["1.2.3.4:0", "[::1]:65535", "[fe80::1]:80"] {
        assert_eq!(socket_text(socket(t)), t.as_bytes());
    }
    for t in ["", "1.2.3", "1.2.3.4.5", "256.1.1.1", "01.2.3.4", ":::", "1::2::3", "g::"] {
        assert!(parse_ip(t.as_bytes()).is_none(), "{t}");
    }
}

#[test]
fn recycle_ports() {
    let mut host = Host::new(IpAddr::V4(Ipv4Addr::unspecified()), 1, 1);
    let addr = host.addr;
    host.udp.bind(SocketAddr::new(addr, 65534)).unwrap();
    host.udp.bind(SocketAddr::new(addr, 65535)).unwrap();
    for _ in 49152..65534 {
        host.assign_ephemeral_port();
    }
    assert_eq!(49152, host.assign_ephemeral_port());
}

#[test]
fn sockets_keep_so_many_datagrams() {
    let mut udp = Udp::new(2);
    let at = socket("0.0.0.0:7");
    assert_eq!(udp.bind(at).unwrap(), at);
    assert_eq!(udp.bind(at).unwrap_err().kind, ErrorKind::AddrInUse);
    assert!(udp.is_port_assigned(7));
    for i in 0..3u8 {
        udp.receive_from_network(socket("1.1.1.1:1"), socket("2.2.2.2:7"), Datagram::new(&[i]));
    }
    // The third is dropped, and the others keep their order.
    assert_eq!(udp.take(7).unwrap().0 .0.to_vec(), [0]);
    assert_eq!(udp.take(7).unwrap().0 .0.to_vec(), [1]);
    assert!(udp.take(7).is_none());
    udp.unbind(at);
    assert!(!udp.is_port_assigned(7));
}

#[test]
fn a_socket_at_another_address_hears_nothing() {
    let mut host = Host::new(IpAddr::V4(Ipv4Addr::new(2, 2, 2, 2)), 1, 1);
    host.udp.bind(socket("127.0.0.1:7")).unwrap();
    let woken = host.receive_from_network(Envelope {
        src: socket("1.1.1.1:1"),
        dst: socket("2.2.2.2:7"),
        message: Protocol::Udp(Datagram::new(&[1])),
    });
    assert!(woken.is_none());
    assert!(host.udp.take(7).is_none());
}

#[test]
fn joining_does_not_produce_duplicate_addresses() {
    let member = socket("[fe80::1]:9000");
    let group = parse_ip(b"ff08::1").unwrap();
    let mut groups = MulticastGroups::new();
    groups.join(group, member);
    groups.join(group, member);
    assert_eq!(groups.len(), 1);
    let addrs = groups.destination_addresses(SocketAddr::new(group, 9000));
    assert_eq!(addrs.as_slice(), &[member]);
}

#[test]
fn leaving_does_not_remove_entire_group() {
    let member1 = socket("[fe80::1]:9000");
    let member2 = socket("[fe80::2]:9000");
    let group = parse_ip(b"ff08::1").unwrap();
    let mut groups = MulticastGroups::new();
    groups.join(group, member1);
    groups.join(group, member2);
    groups.leave(group, member2);
    assert_eq!(groups.len(), 1);
    let addrs = groups.destination_addresses(SocketAddr::new(group, 9000));
    assert_eq!(addrs.as_slice(), &[member1]);
    assert!(groups.contains_destination_address(group, member1));
    assert!(!groups.contains_destination_address(group, member2));
}

#[test]
fn leaving_removes_empty_group() {
    let member = socket("[fe80::1]:9000");
    let group = parse_ip(b"ff08::1").unwrap();
    let mut groups = MulticastGroups::new();
    groups.join(group, member);
    groups.leave(group, member);
    assert_eq!(groups.len(), 0);
}

#[test]
fn leaving_removes_empty_groups() {
    let member = socket("[fe80::1]:9000");
    let group1 = parse_ip(b"ff08::1").unwrap();
    let group2 = parse_ip(b"ff08::2").unwrap();
    let mut groups = MulticastGroups::new();
    groups.join(group1, member);
    groups.join(group2, member);
    groups.leave_all(member);
    assert_eq!(groups.len(), 0);
}

#[test]
fn messages_show_their_bytes() {
    let text = |data: &[u8]| Protocol::Udp(Datagram::new(data)).to_text();
    assert_eq!(text(&[0x0A, 0xff]), b"UDP [0xA, 0xFF]");
    assert_eq!(text(&[]), b"UDP []");
}

#[test]
fn a_node_has_its_name() {
    assert_eq!(NodeIdentifer::new(b"n1").name(), b"n1");
}

#[test]
fn patterns_match_names_as_text() {
    let p = turmoil::pattern::Pattern::new("^client-[0-9]$").unwrap();
    assert!(p.matches_name(&b"client-7".to_vec()));
    assert!(!p.matches_name(&b"client-77".to_vec()));
    assert!(!p.matches_name(&b"a client-7".to_vec()));
    let any = turmoil::pattern::Pattern::new("").unwrap();
    assert!(any.matches_name(&vec![]));
    assert!(!any.matches_name(&vec![0xff]));
    assert!(turmoil::pattern::Pattern::new("(").is_none());
}

#[test]
fn a_host_without_networks_has_no_address() {
    let mut dns = dns();
    assert!(dns.register(b"bob", &vec![]).is_empty());
    assert_eq!(dns.resolve(b"bob"), None);
    assert!(dns.lookup_many(&name("bob")).is_empty());
}
