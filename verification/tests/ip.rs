//! Networks of addresses.
use turmoil::addr::{Ipv4Addr, Ipv6Addr};
use turmoil::ip::{Ipv4Subnet, Ipv6Subnet};

#[test]
fn ip_subnet_v4() {
    let subnet = Ipv4Subnet::new(Ipv4Addr::new(192, 168, 0, 0), 16);
    assert_eq!(subnet.prefix(), Ipv4Addr::new(192, 168, 0, 0));

    assert!(subnet.contains(Ipv4Addr::new(192, 168, 2, 24)));
    assert!(subnet.contains(Ipv4Addr::new(192, 168, 0, 0)));
    assert!(subnet.contains(Ipv4Addr::new(192, 168, 255, 255)));

    assert!(!subnet.contains(Ipv4Addr::new(192, 169, 2, 24)));
    assert!(!subnet.contains(Ipv4Addr::new(0, 0, 0, 0)));
    assert!(!subnet.contains(Ipv4Addr::new(255, 255, 255, 255)));

    assert!(subnet.intersects(Ipv4Subnet::new(Ipv4Addr::new(192, 168, 2, 0), 10)));
    assert!(!subnet.intersects(Ipv4Subnet::new(Ipv4Addr::new(193, 168, 2, 0), 10)));
}

#[test]
fn ip_subnet_v6() {
    let subnet = Ipv6Subnet::new(Ipv6Addr::new(0xfe80, 0, 0, 0, 0, 0, 0, 0), 64);
    assert_eq!(subnet.prefix(), Ipv6Addr::new(0xfe80, 0, 0, 0, 0, 0, 0, 0));

    assert!(subnet.contains(Ipv6Addr::new(0xfe80, 0, 0, 0, 2, 0, 24, 0)));
    assert!(subnet.contains(Ipv6Addr::new(0xfe80, 0, 0, 0, 0, 0, 0, 0)));
    assert!(subnet.contains(Ipv6Addr::new(
        0xfe80, 0, 0, 0, 0xffff, 0xffff, 0xffff, 0xffff
    )));

    assert!(!subnet.contains(Ipv6Addr::new(0xfe80, 0, 0, 3, 0, 0, 0, 0)));
    assert!(!subnet.contains(Ipv6Addr::unspecified()));
    assert!(!subnet.contains(Ipv6Addr::new(
        0xffff, 0xffff, 0xffff, 0xffff, 0xffff, 0xffff, 0xffff, 0xffff
    )));

    assert!(subnet.intersects(Ipv6Subnet::new(
        Ipv6Addr::new(0xfe80, 0, 0, 0, 0, 0, 0, 0),
        52
    )));
    assert!(!subnet.intersects(Ipv6Subnet::new(
        Ipv6Addr::new(0xfe81, 0, 0, 0, 0, 0, 0, 0),
        40
    )));
}

fn v4(a: u8, b: u8, c: u8, d: u8) -> turmoil::addr::IpAddr {
    turmoil::addr::IpAddr::V4(Ipv4Addr::new(a, b, c, d))
}

#[test]
fn subnets_read_back() {
    let subnet = Ipv4Subnet::from_str(b"10.1.2.3/16").unwrap();
    assert_eq!(subnet.to_text(), b"10.1.0.0/16");
    assert_eq!(subnet.prefixlen(), 16);
    let subnet = Ipv6Subnet::from_str(b"fe80::1/64").unwrap();
    assert_eq!(subnet.to_text(), b"fe80::/64");
    assert_eq!(subnet.prefixlen(), 64);
    assert!(Ipv4Subnet::from_str(b"10.1.2.3").is_err());
    assert!(Ipv4Subnet::from_str(b"10.1.2/8").is_err());
    assert!(Ipv4Subnet::from_str(b"10.1.2.3/x").is_err());
    assert!(Ipv6Subnet::from_str(b"10.1.2.3/8").is_err());
}

#[test]
fn subnets_do_not_meet() {
    let mut subnets = turmoil::ip::IpSubnets::new();
    let wide = turmoil::ip::IpSubnet::V4(Ipv4Subnet::from_str(b"10.0.0.0/8").unwrap());
    let inner = turmoil::ip::IpSubnet::V4(Ipv4Subnet::from_str(b"10.1.0.0/16").unwrap());
    let other = turmoil::ip::IpSubnet::V4(Ipv4Subnet::from_str(b"11.0.0.0/8").unwrap());
    subnets.add(wide);
    assert!(subnets.is_taken(inner));
    assert!(!subnets.is_taken(other));
    subnets.add(other);
    assert_eq!(subnets.len(), 2);
    let reverse = turmoil::ip::IpSubnets::default_reverse();
    assert_eq!(reverse.len(), 2);
    assert!(matches!(reverse.at(0), turmoil::ip::IpSubnet::V6(_)));
    assert!(matches!(reverse.at(1), turmoil::ip::IpSubnet::V4(_)));
}

#[test]
fn the_longest_prefix_wins() {
    let addrs = [v4(192, 168, 0, 1), v4(10, 1, 0, 1), v4(10, 1, 2, 9)];
    let best = turmoil::ip::longest_prefix_match(&addrs, v4(10, 1, 2, 3));
    assert_eq!(best, v4(10, 1, 2, 9));
    let best = turmoil::ip::longest_prefix_match(&addrs, v4(192, 168, 9, 9));
    assert_eq!(best, v4(192, 168, 0, 1));
}

#[test]
fn addresses_are_handed_out_in_turn() {
    let mut addrs = turmoil::ip::IpVersion::V4.iter();
    assert_eq!(addrs.next_addr(), v4(192, 168, 0, 1));
    assert_eq!(addrs.next_addr(), v4(192, 168, 0, 2));
}

#[test]
fn durations_have_parts() {
    let d = turmoil::time::Duration::from_millis(1500);
    assert_eq!(d.as_secs(), 1);
    assert_eq!(d.subsec_nanos(), 500_000_000);
    assert!(!d.is_zero());
    assert!(turmoil::time::Duration::zero().is_zero());
    assert_eq!(turmoil::time::Duration::from_micros(7).nanos, 7_000);
}
