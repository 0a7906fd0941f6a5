//! Addresses of hosts and of sockets.
use vstd::prelude::*;

verus! {

/// An address of 32 bits.
#[derive(Clone, Copy, Debug, PartialEq, Eq, Hash, Structural)]
pub struct Ipv4Addr {
    /// The address, its first octet in the highest bits.
    pub bits: u32,
}

impl Ipv4Addr {
    /// The address `a.b.c.d`.
    pub fn new(a: u8, b: u8, c: u8, d: u8) -> (r: Ipv4Addr)
        ensures
            r.bits == a * 0x100_0000 + b * 0x1_0000 + c * 0x100 + d,
    {
        Ipv4Addr { bits: a as u32 * 0x100_0000 + b as u32 * 0x1_0000 + c as u32 * 0x100 + d as u32 }
    }

    /// The octet at the index, counted from the highest.
    pub open spec fn octet(self, i: int) -> int {
        if i == 0 {
            self.bits as int / 0x100_0000
        } else if i == 1 {
            self.bits as int / 0x1_0000 % 0x100
        } else if i == 2 {
            self.bits as int / 0x100 % 0x100
        } else {
            self.bits as int % 0x100
        }
    }

    /// `0.0.0.0`, which stands for every address of a host.
    pub fn unspecified() -> (r: Ipv4Addr)
        ensures
            r.bits == 0,
    {
        Ipv4Addr { bits: 0 }
    }

    /// `127.0.0.1`, which stands for the host itself.
    pub fn localhost() -> (r: Ipv4Addr)
        ensures
            r.bits == 0x7f00_0001,
    {
        Ipv4Addr { bits: 0x7f00_0001 }
    }

    /// Whether the address is `0.0.0.0`.
    pub fn is_unspecified(&self) -> (r: bool)
        ensures
            r == (self.bits == 0),
    {
        self.bits == 0
    }

    /// Whether the address is in `127.0.0.0/8`.
    pub fn is_loopback(&self) -> (r: bool)
        ensures
            r == (self.octet(0) == 127),
    {
        self.bits / 0x100_0000 == 127
    }

    /// Whether the address is `255.255.255.255`.
    pub fn is_broadcast(&self) -> (r: bool)
        ensures
            r == (self.bits == u32::MAX),
    {
        self.bits == u32::MAX
    }

    /// Whether the address is in `224.0.0.0/4`.
    pub fn is_multicast(&self) -> (r: bool)
        ensures
            r == (224 <= self.octet(0) < 240),
    {
        let first: u32 = self.bits / 0x100_0000;
        224 <= first && first < 240
    }
}

/// An address of 128 bits.
#[derive(Clone, Copy, Debug, PartialEq, Eq, Hash, Structural)]
pub struct Ipv6Addr {
    /// The address, its first group in the highest bits.
    pub bits: u128,
}

/// The number with a further group of 16 bits below it.
pub open spec fn with_group(high: int, group: int) -> int {
    high * 0x1_0000 + group
}

impl Ipv6Addr {
    /// The address `a:b:c:d:e:f:g:h`.
    pub fn new(a: u16, b: u16, c: u16, d: u16, e: u16, f: u16, g: u16, h: u16) -> (r: Ipv6Addr)
        ensures
            r.bits == with_group(
                with_group(
                    with_group(
                        with_group(
                            with_group(with_group(with_group(a as int, b as int), c as int), d as int),
                            e as int,
                        ),
                        f as int,
                    ),
                    g as int,
                ),
                h as int,
            ),
    {
        let two: u128 = a as u128 * 0x1_0000 + b as u128;
        let three: u128 = two * 0x1_0000 + c as u128;
        let four: u128 = three * 0x1_0000 + d as u128;
        let five: u128 = four * 0x1_0000 + e as u128;
        let six: u128 = five * 0x1_0000 + f as u128;
        let seven: u128 = six * 0x1_0000 + g as u128;
        Ipv6Addr { bits: seven * 0x1_0000 + h as u128 }
    }

    /// `::`, which stands for every address of a host.
    pub fn unspecified() -> (r: Ipv6Addr)
        ensures
            r.bits == 0,
    {
        Ipv6Addr { bits: 0 }
    }

    /// `::1`, which stands for the host itself.
    pub fn localhost() -> (r: Ipv6Addr)
        ensures
            r.bits == 1,
    {
        Ipv6Addr { bits: 1 }
    }

    /// Whether the address is `::`.
    pub fn is_unspecified(&self) -> (r: bool)
        ensures
            r == (self.bits == 0),
    {
        self.bits == 0
    }

    /// Whether the address is `::1`.
    pub fn is_loopback(&self) -> (r: bool)
        ensures
            r == (self.bits == 1),
    {
        self.bits == 1
    }

    /// Whether the address is in `ff00::/8`.
    pub open spec fn in_multicast(self) -> bool {
        self.bits >= 0xff00_0000_0000_0000_0000_0000_0000_0000
    }

    /// Whether the address is in `ff00::/8`.
    pub fn is_multicast(&self) -> (r: bool)
        ensures
            r == self.in_multicast(),
    {
        self.bits >= 0xff00_0000_0000_0000_0000_0000_0000_0000
    }
}

/// The key by which the collections of the library know an address, a socket address,
/// a pair of them or a number.
pub type Key = (u128, u128, u64);

/// An address of a host.
#[derive(Clone, Copy, Debug, PartialEq, Eq, Hash, Structural)]
pub enum IpAddr {
    /// An address of 32 bits.
    V4(Ipv4Addr),
    /// An address of 128 bits.
    V6(Ipv6Addr),
}

impl IpAddr {
    /// The bits of the address as a number.
    pub open spec fn number(self) -> u128 {
        match self {
            IpAddr::V4(v4) => v4.bits as u128,
            IpAddr::V6(v6) => v6.bits,
        }
    }

    /// Whether the address sorts before the other: those of 32 bits come first, and among
    /// addresses of one kind the smaller number does.
    pub open spec fn is_before(self, other: IpAddr) -> bool {
        match (self, other) {
            (IpAddr::V4(_), IpAddr::V6(_)) => true,
            (IpAddr::V6(_), IpAddr::V4(_)) => false,
            _ => self.number() < other.number(),
        }
    }

    /// Whether the address stands for every address of a host.
    pub open spec fn unspecified(self) -> bool {
        self.number() == 0
    }

    /// Whether the address stands for the host itself.
    pub open spec fn loopback(self) -> bool {
        match self {
            IpAddr::V4(v4) => v4.octet(0) == 127,
            IpAddr::V6(v6) => v6.bits == 1,
        }
    }

    /// Whether the address stands for a group of sockets.
    pub open spec fn multicast(self) -> bool {
        match self {
            IpAddr::V4(v4) => 224 <= v4.octet(0) < 240,
            IpAddr::V6(v6) => v6.in_multicast(),
        }
    }

    /// The key of the address.
    pub open spec fn spec_key(self) -> Key {
        match self {
            IpAddr::V4(v4) => (v4.bits as u128, 0, 4),
            IpAddr::V6(v6) => (v6.bits, 0, 6),
        }
    }

    /// The key of the address.
    #[verifier::when_used_as_spec(spec_key)]
    pub fn key(self) -> (r: Key)
        ensures
            r == self.spec_key(),
    {
        match self {
            IpAddr::V4(v4) => (v4.bits as u128, 0, 4),
            IpAddr::V6(v6) => (v6.bits, 0, 6),
        }
    }

    /// Whether the address is one of 32 bits.
    pub fn is_ipv4(&self) -> (r: bool)
        ensures
            r == (*self is V4),
    {
        match self {
            IpAddr::V4(_) => true,
            IpAddr::V6(_) => false,
        }
    }

    /// Whether the address is one of 128 bits.
    pub fn is_ipv6(&self) -> (r: bool)
        ensures
            r == (*self is V6),
    {
        !self.is_ipv4()
    }

    /// Whether the address sorts before the other.
    pub fn precedes(&self, other: IpAddr) -> (r: bool)
        ensures
            r == self.is_before(other),
    {
        match (*self, other) {
            (IpAddr::V4(a), IpAddr::V4(b)) => a.bits < b.bits,
            (IpAddr::V6(a), IpAddr::V6(b)) => a.bits < b.bits,
            (IpAddr::V4(_), IpAddr::V6(_)) => true,
            (IpAddr::V6(_), IpAddr::V4(_)) => false,
        }
    }

    /// Whether the address stands for every address of a host.
    pub fn is_unspecified(&self) -> (r: bool)
        ensures
            r == self.unspecified(),
    {
        match self {
            IpAddr::V4(v4) => v4.is_unspecified(),
            IpAddr::V6(v6) => v6.is_unspecified(),
        }
    }

    /// Whether the address stands for the host itself.
    pub fn is_loopback(&self) -> (r: bool)
        ensures
            r == self.loopback(),
    {
        match self {
            IpAddr::V4(v4) => v4.is_loopback(),
            IpAddr::V6(v6) => v6.is_loopback(),
        }
    }

    /// Whether the address stands for a group of sockets.
    pub fn is_multicast(&self) -> (r: bool)
        ensures
            r == self.multicast(),
    {
        match self {
            IpAddr::V4(v4) => v4.is_multicast(),
            IpAddr::V6(v6) => v6.is_multicast(),
        }
    }
}

/// Different addresses have different keys.
pub proof fn lemma_ip_keys(a: IpAddr, b: IpAddr)
    ensures
        a.key() == b.key() ==> a == b,
{
}

/// Of two different addresses exactly one sorts before the other.
pub proof fn law_addresses_are_ordered(a: IpAddr, b: IpAddr)
    ensures
        !(a.is_before(b) && b.is_before(a)),
        a != b ==> a.is_before(b) || b.is_before(a),
        !a.is_before(a),
{
}

/// An address of a socket.
#[derive(Clone, Copy, Debug, PartialEq, Eq, Hash, Structural)]
pub struct SocketAddr {
    /// The address of the host.
    pub ip: IpAddr,
    /// The port.
    pub port: u16,
}

impl SocketAddr {
    /// The key of the address.
    pub open spec fn spec_key(self) -> Key {
        (self.ip.key().0, self.port as u128, self.ip.key().2)
    }

    /// The key of the address.
    #[verifier::when_used_as_spec(spec_key)]
    pub fn key(self) -> (r: Key)
        ensures
            r == self.spec_key(),
    {
        let ip = self.ip.key();
        (ip.0, self.port as u128, ip.2)
    }

    /// The address of a host and a port on it.
    pub fn new(ip: IpAddr, port: u16) -> (r: SocketAddr)
        ensures
            r == (SocketAddr { ip, port }),
    {
        SocketAddr { ip, port }
    }

    /// Whether the host's address is one of 32 bits.
    pub fn is_ipv4(&self) -> (r: bool)
        ensures
            r == (self.ip is V4),
    {
        self.ip.is_ipv4()
    }

    /// Whether the host's address is one of 128 bits.
    pub fn is_ipv6(&self) -> (r: bool)
        ensures
            r == (self.ip is V6),
    {
        self.ip.is_ipv6()
    }
}

/// Different socket addresses have different keys.
pub proof fn lemma_socket_keys(a: SocketAddr, b: SocketAddr)
    ensures
        a.key() == b.key() ==> a == b,
{
    lemma_ip_keys(a.ip, b.ip);
}

} // verus!
