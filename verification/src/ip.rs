//! Networks of addresses.
use crate::addr::{IpAddr, Ipv4Addr, Ipv6Addr};
use crate::text;
use crate::text::SLASH;
use vstd::prelude::*;
use vstd::slice::slice_subrange;

verus! {

/// The mask of a prefix of the given length, which is less than 32: ones in the bits of
/// the prefix, zeros below.
pub open spec fn mask_v4(len: u32) -> u32 {
    !(0xffff_ffffu32 >> len)
}

/// The mask of a prefix of the given length, which is less than 128: ones in the bits of
/// the prefix, zeros below.
pub open spec fn mask_v6(len: u32) -> u128 {
    !(0xffff_ffff_ffff_ffff_ffff_ffff_ffff_ffffu128 >> len)
}

/// Whether the network with the first prefix and mask is the range of addresses from its
/// prefix to the address with every bit below the prefix set.
proof fn lemma_range_v4(prefix: u32, mask: u32, len: u32, addr: u32)
    requires
        len < 32,
        mask == mask_v4(len),
        prefix & mask == prefix,
    ensures
        (addr & mask == prefix) <==> (prefix <= addr && addr <= prefix | !mask),
        prefix <= prefix | !mask,
{
    assert(((addr & mask == prefix) <==> (prefix <= addr && addr <= prefix | !mask)) && prefix
        <= prefix | !mask) by (bit_vector)
        requires
            len < 32,
            mask == !(0xffff_ffffu32 >> len),
            prefix & mask == prefix,
    ;
}

/// The same of a network of longer addresses.
proof fn lemma_range_v6(prefix: u128, mask: u128, len: u32, addr: u128)
    requires
        len < 128,
        mask == mask_v6(len),
        prefix & mask == prefix,
    ensures
        (addr & mask == prefix) <==> (prefix <= addr && addr <= prefix | !mask),
        prefix <= prefix | !mask,
{
    assert(((addr & mask == prefix) <==> (prefix <= addr && addr <= prefix | !mask)) && prefix
        <= prefix | !mask) by (bit_vector)
        requires
            len < 128,
            mask == !(0xffff_ffff_ffff_ffff_ffff_ffff_ffff_ffffu128 >> len),
            prefix & mask == prefix,
    ;
}

/// A network of addresses of 32 bits: those that begin with one prefix.
#[derive(Clone, Copy, Debug, PartialEq, Eq, Structural)]
pub struct Ipv4Subnet {
    subnet: Ipv4Addr,
    mask: Ipv4Addr,
}

impl Ipv4Subnet {
    /// The prefix, followed by zeros.
    pub closed spec fn prefix_bits(self) -> u32 {
        self.subnet.bits
    }

    /// Ones in the bits of the prefix, zeros below.
    pub closed spec fn mask_bits(self) -> u32 {
        self.mask.bits
    }

    /// Whether the mask is that of a prefix, and the prefix has no bit beyond it.
    pub open spec fn wf(self) -> bool {
        &&& exists|len: u32| len < 32 && self.mask_bits() == #[trigger] mask_v4(len)
        &&& self.prefix_bits() & self.mask_bits() == self.prefix_bits()
    }

    /// Whether the address begins with the prefix.
    pub open spec fn holds(self, addr: Ipv4Addr) -> bool {
        addr.bits & self.mask_bits() == self.prefix_bits()
    }

    /// The network whose prefix is the first `prefixlen` bits of the address.
    pub fn new(subnet: Ipv4Addr, prefixlen: usize) -> (r: Self)
        requires
            prefixlen < 32,
        ensures
            r.wf(),
            r.mask_bits() == mask_v4(prefixlen as u32),
            r.prefix_bits() == subnet.bits & mask_v4(prefixlen as u32),
    {
        let mask = prefixlen_to_mask_v4(prefixlen);
        let prefix = truncate_netmask_v4(subnet, mask);
        proof {
            let s = subnet.bits;
            let m = mask.bits;
            assert((s & m) & m == s & m) by (bit_vector);
        }
        Ipv4Subnet { subnet: prefix, mask }
    }

    /// The address of the network whose bits below the prefix are those of the number.
    pub fn addr_from_entropy(&self, entropy: u128) -> (r: IpAddr)
        requires
            self.wf(),
        ensures
            r == IpAddr::V4(
                Ipv4Addr {
                    bits: ((entropy % 0x1_0000_0000) as u32 & !self.mask_bits()) | self.prefix_bits(),
                },
            ),
            self.holds(r->V4_0),
    {
        let mut bytes: u32 = (entropy % 0x1_0000_0000) as u32;
        bytes = bytes & !self.mask.bits;
        bytes = bytes | self.subnet.bits;
        proof {
            let e = (entropy % 0x1_0000_0000) as u32;
            let m = self.mask.bits;
            let p = self.subnet.bits;
            assert(((e & !m) | p) & m == p) by (bit_vector)
                requires
                    p & m == p,
            ;
        }
        IpAddr::V4(Ipv4Addr { bits: bytes })
    }

    /// The prefix as an address.
    pub fn prefix(&self) -> (r: Ipv4Addr)
        ensures
            r.bits == self.prefix_bits(),
    {
        self.subnet
    }

    /// The number of bits of the prefix.
    pub fn prefixlen(&self) -> (r: usize)
        requires
            self.wf(),
        ensures
            r < 32,
            self.mask_bits() == mask_v4(r as u32),
    {
        mask_to_prefixlen_v4(self.mask)
    }

    /// Whether the address is in the network.
    pub fn contains(&self, addr: Ipv4Addr) -> (r: bool)
        requires
            self.wf(),
        ensures
            r == self.holds(addr),
    {
        let start: u32 = self.subnet.bits;
        let end: u32 = self.subnet.bits | !self.mask.bits;
        proof {
            let len = choose|len: u32| len < 32 && self.mask_bits() == #[trigger] mask_v4(len);
            lemma_range_v4(self.subnet.bits, self.mask.bits, len, addr.bits);
        }
        start <= addr.bits && addr.bits <= end
    }

    /// Whether some address is in both networks.
    pub fn intersects(&self, subnet: Ipv4Subnet) -> (r: bool)
        requires
            self.wf(),
            subnet.wf(),
        ensures
            r == (exists|a: Ipv4Addr| #[trigger] self.holds(a) && subnet.holds(a)),
    {
        let start: u32 = self.subnet.bits;
        let end: u32 = self.subnet.bits | !self.mask.bits;
        let addr_start: u32 = subnet.subnet.bits;
        let addr_end: u32 = subnet.subnet.bits | !subnet.mask.bits;
        let r = start <= addr_end && addr_start <= end;
        proof {
            let n = choose|len: u32| len < 32 && self.mask_bits() == #[trigger] mask_v4(len);
            let m = choose|len: u32| len < 32 && subnet.mask_bits() == #[trigger] mask_v4(len);
            let low = Ipv4Addr { bits: if start <= addr_start { addr_start } else { start } };
            lemma_range_v4(start, self.mask.bits, n, low.bits);
            lemma_range_v4(addr_start, subnet.mask.bits, m, low.bits);
            if r {
                assert(self.holds(low) && subnet.holds(low));
            }
            assert forall|a: Ipv4Addr| #[trigger] self.holds(a) && subnet.holds(a) implies r by {
                lemma_range_v4(start, self.mask.bits, n, a.bits);
                lemma_range_v4(addr_start, subnet.mask.bits, m, a.bits);
            }
        }
        r
    }
}

impl Default for Ipv4Subnet {
    /// `192.168.0.0/16`.
    fn default() -> (r: Self)
        ensures
            r.wf(),
            r.mask_bits() == mask_v4(16),
            r.prefix_bits() == 0xc0a8_0000,
    {
        proof {
            assert(0xc0a8_0000u32 & !(0xffff_ffffu32 >> 16) == 0xc0a8_0000) by (bit_vector);
        }
        Ipv4Subnet::new(Ipv4Addr::new(192, 168, 0, 0), 16)
    }
}

fn truncate_netmask_v4(subnet: Ipv4Addr, mask: Ipv4Addr) -> (r: Ipv4Addr)
    ensures
        r.bits == subnet.bits & mask.bits,
{
    Ipv4Addr { bits: subnet.bits & mask.bits }
}

fn prefixlen_to_mask_v4(prefixlen: usize) -> (r: Ipv4Addr)
    requires
        prefixlen < 32,
    ensures
        r.bits == mask_v4(prefixlen as u32),
{
    Ipv4Addr { bits: !(u32::MAX >> (prefixlen as u32)) }
}

fn mask_to_prefixlen_v4(mask: Ipv4Addr) -> (r: usize)
    requires
        exists|len: u32| len < 32 && mask.bits == #[trigger] mask_v4(len),
    ensures
        r < 32,
        mask.bits == mask_v4(r as u32),
{
    let bits: u32 = mask.bits;
    let ghost len = choose|len: u32| len < 32 && bits == #[trigger] mask_v4(len);
    let mut n: u32 = 0;
    proof {
        assert(((bits >> 31u32) & 1 == 1) <==> 0 < len) by (bit_vector)
            requires
                len < 32,
                bits == !(0xffff_ffffu32 >> len),
        ;
    }
    while n < 31 && (bits >> (31 - n)) & 1 == 1
        invariant
            n <= len < 32,
            bits == mask_v4(len),
            n < 32 ==> (((bits >> ((31 - n) as u32)) & 1 == 1) <==> n < len),
        decreases 32 - n,
    {
        n = n + 1;
        proof {
            let s = (31 - n) as u32;
            assert(((bits >> s) & 1 == 1) <==> 31 - s < len) by (bit_vector)
                requires
                    len < 32,
                    s < 32,
                    bits == !(0xffff_ffffu32 >> len),
            ;
        }
    }
    n as usize
}

/// A network of addresses of 128 bits: those that begin with one prefix.
#[derive(Clone, Copy, Debug, PartialEq, Eq, Structural)]
pub struct Ipv6Subnet {
    subnet: Ipv6Addr,
    mask: Ipv6Addr,
}

impl Ipv6Subnet {
    /// The prefix, followed by zeros.
    pub closed spec fn prefix_bits(self) -> u128 {
        self.subnet.bits
    }

    /// Ones in the bits of the prefix, zeros below.
    pub closed spec fn mask_bits(self) -> u128 {
        self.mask.bits
    }

    /// Whether the mask is that of a prefix, and the prefix has no bit beyond it.
    pub open spec fn wf(self) -> bool {
        &&& exists|len: u32| len < 128 && self.mask_bits() == #[trigger] mask_v6(len)
        &&& self.prefix_bits() & self.mask_bits() == self.prefix_bits()
    }

    /// Whether the address begins with the prefix.
    pub open spec fn holds(self, addr: Ipv6Addr) -> bool {
        addr.bits & self.mask_bits() == self.prefix_bits()
    }

    /// The network whose prefix is the first `prefixlen` bits of the address.
    pub fn new(subnet: Ipv6Addr, prefixlen: usize) -> (r: Self)
        requires
            prefixlen < 128,
        ensures
            r.wf(),
            r.mask_bits() == mask_v6(prefixlen as u32),
            r.prefix_bits() == subnet.bits & mask_v6(prefixlen as u32),
    {
        let mask = prefixlen_to_mask_v6(prefixlen);
        let prefix = truncate_netmask_v6(subnet, mask);
        proof {
            let s = subnet.bits;
            let m = mask.bits;
            assert((s & m) & m == s & m) by (bit_vector);
        }
        Ipv6Subnet { subnet: prefix, mask }
    }

    /// The address of the network whose bits below the prefix are those of the number.
    pub fn addr_from_entropy(&self, entropy: u128) -> (r: IpAddr)
        requires
            self.wf(),
        ensures
            r == IpAddr::V6(
                Ipv6Addr { bits: (entropy & !self.mask_bits()) | self.prefix_bits() },
            ),
            self.holds(r->V6_0),
    {
        let mut bytes: u128 = entropy;
        bytes = bytes & !self.mask.bits;
        bytes = bytes | self.subnet.bits;
        proof {
            let m = self.mask.bits;
            let p = self.subnet.bits;
            assert(((entropy & !m) | p) & m == p) by (bit_vector)
                requires
                    p & m == p,
            ;
        }
        IpAddr::V6(Ipv6Addr { bits: bytes })
    }

    /// The prefix as an address.
    pub fn prefix(&self) -> (r: Ipv6Addr)
        ensures
            r.bits == self.prefix_bits(),
    {
        self.subnet
    }

    /// The number of bits of the prefix.
    pub fn prefixlen(&self) -> (r: usize)
        requires
            self.wf(),
        ensures
            r < 128,
            self.mask_bits() == mask_v6(r as u32),
    {
        mask_to_prefixlen_v6(self.mask)
    }

    /// Whether the address is in the network.
    pub fn contains(&self, addr: Ipv6Addr) -> (r: bool)
        requires
            self.wf(),
        ensures
            r == self.holds(addr),
    {
        let start: u128 = self.subnet.bits;
        let end: u128 = self.subnet.bits | !self.mask.bits;
        proof {
            let len = choose|len: u32| len < 128 && self.mask_bits() == #[trigger] mask_v6(len);
            lemma_range_v6(self.subnet.bits, self.mask.bits, len, addr.bits);
        }
        start <= addr.bits && addr.bits <= end
    }

    /// Whether some address is in both networks.
    pub fn intersects(&self, subnet: Ipv6Subnet) -> (r: bool)
        requires
            self.wf(),
            subnet.wf(),
        ensures
            r == (exists|a: Ipv6Addr| #[trigger] self.holds(a) && subnet.holds(a)),
    {
        let start: u128 = self.subnet.bits;
        let end: u128 = self.subnet.bits | !self.mask.bits;
        let addr_start: u128 = subnet.subnet.bits;
        let addr_end: u128 = subnet.subnet.bits | !subnet.mask.bits;
        let r = start <= addr_end && addr_start <= end;
        proof {
            let n = choose|len: u32| len < 128 && self.mask_bits() == #[trigger] mask_v6(len);
            let m = choose|len: u32| len < 128 && subnet.mask_bits() == #[trigger] mask_v6(len);
            let low = Ipv6Addr { bits: if start <= addr_start { addr_start } else { start } };
            lemma_range_v6(start, self.mask.bits, n, low.bits);
            lemma_range_v6(addr_start, subnet.mask.bits, m, low.bits);
            if r {
                assert(self.holds(low) && subnet.holds(low));
            }
            assert forall|a: Ipv6Addr| #[trigger] self.holds(a) && subnet.holds(a) implies r by {
                lemma_range_v6(start, self.mask.bits, n, a.bits);
                lemma_range_v6(addr_start, subnet.mask.bits, m, a.bits);
            }
        }
        r
    }
}

impl Default for Ipv6Subnet {
    /// `fe80::/64`.
    fn default() -> (r: Self)
        ensures
            r.wf(),
            r.mask_bits() == mask_v6(64),
            r.prefix_bits() == 0xfe80_0000_0000_0000_0000_0000_0000_0000,
    {
        proof {
            assert(0xfe80_0000_0000_0000_0000_0000_0000_0000u128
                & !(0xffff_ffff_ffff_ffff_ffff_ffff_ffff_ffffu128 >> 64)
                == 0xfe80_0000_0000_0000_0000_0000_0000_0000) by (bit_vector);
        }
        Ipv6Subnet::new(Ipv6Addr::new(0xfe80, 0, 0, 0, 0, 0, 0, 0), 64)
    }
}

fn truncate_netmask_v6(subnet: Ipv6Addr, mask: Ipv6Addr) -> (r: Ipv6Addr)
    ensures
        r.bits == subnet.bits & mask.bits,
{
    Ipv6Addr { bits: subnet.bits & mask.bits }
}

fn prefixlen_to_mask_v6(prefixlen: usize) -> (r: Ipv6Addr)
    requires
        prefixlen < 128,
    ensures
        r.bits == mask_v6(prefixlen as u32),
{
    Ipv6Addr { bits: !(u128::MAX >> (prefixlen as u32)) }
}

fn mask_to_prefixlen_v6(mask: Ipv6Addr) -> (r: usize)
    requires
        exists|len: u32| len < 128 && mask.bits == #[trigger] mask_v6(len),
    ensures
        r < 128,
        mask.bits == mask_v6(r as u32),
{
    let bits: u128 = mask.bits;
    let ghost len = choose|len: u32| len < 128 && bits == #[trigger] mask_v6(len);
    let mut n: u32 = 0;
    proof {
        lemma_bit_v6(bits, len, 127);
    }
    while n < 127 && (bits >> (127 - n)) & 1 == 1
        invariant
            n <= len < 128,
            bits == mask_v6(len),
            n < 128 ==> (((bits >> ((127 - n) as u32)) & 1 == 1) <==> n < len),
        decreases 128 - n,
    {
        n = n + 1;
        proof {
            lemma_bit_v6(bits, len, (127 - n) as u32);
        }
    }
    n as usize
}

/// The bit of a mask at the position is set exactly within the prefix.
proof fn lemma_bit_v6(bits: u128, len: u32, s: u32)
    requires
        len < 128,
        s < 128,
        bits == mask_v6(len),
    ensures
        ((bits >> s) & 1 == 1) <==> 127 - s < len,
{
    assert(((bits >> s) & 1 == 1) <==> 127 - s < len) by (bit_vector)
        requires
            len < 128,
            s < 128,
            bits == !(0xffff_ffff_ffff_ffff_ffff_ffff_ffff_ffffu128 >> len),
    ;
}

/// A network of addresses of either kind.
#[derive(Clone, Copy, Debug, PartialEq, Eq, Structural)]
pub enum IpSubnet {
    /// A network of addresses of 32 bits.
    V4(Ipv4Subnet),
    /// A network of addresses of 128 bits.
    V6(Ipv6Subnet),
}

impl IpSubnet {
    /// Whether the network is well formed.
    pub open spec fn wf(self) -> bool {
        match self {
            IpSubnet::V4(v4) => v4.wf(),
            IpSubnet::V6(v6) => v6.wf(),
        }
    }

    /// Whether the address is in the network. One of the other kind is not.
    pub open spec fn holds(self, addr: IpAddr) -> bool {
        match (self, addr) {
            (IpSubnet::V4(v4), IpAddr::V4(a)) => v4.holds(a),
            (IpSubnet::V6(v6), IpAddr::V6(a)) => v6.holds(a),
            _ => false,
        }
    }

    /// The address of the network whose bits below the prefix are those of the number.
    pub open spec fn member(self, entropy: u128) -> IpAddr {
        match self {
            IpSubnet::V4(v4) => IpAddr::V4(
                Ipv4Addr {
                    bits: ((entropy % 0x1_0000_0000) as u32 & !v4.mask_bits()) | v4.prefix_bits(),
                },
            ),
            IpSubnet::V6(v6) => IpAddr::V6(
                Ipv6Addr { bits: (entropy & !v6.mask_bits()) | v6.prefix_bits() },
            ),
        }
    }

    /// The address of the network whose bits below the prefix are those of the number.
    pub fn addr_from_entropy(&self, entropy: u128) -> (r: IpAddr)
        requires
            self.wf(),
        ensures
            r == self.member(entropy),
            self.holds(r),
    {
        match self {
            IpSubnet::V4(v4) => v4.addr_from_entropy(entropy),
            IpSubnet::V6(v6) => v6.addr_from_entropy(entropy),
        }
    }

    /// The prefix as an address.
    pub fn prefix(&self) -> (r: IpAddr)
        ensures
            r == match *self {
                IpSubnet::V4(v4) => IpAddr::V4(Ipv4Addr { bits: v4.prefix_bits() }),
                IpSubnet::V6(v6) => IpAddr::V6(Ipv6Addr { bits: v6.prefix_bits() }),
            },
    {
        match self {
            IpSubnet::V4(v4) => IpAddr::V4(v4.prefix()),
            IpSubnet::V6(v6) => IpAddr::V6(v6.prefix()),
        }
    }

    /// The number of bits of the prefix.
    pub fn prefixlen(&self) -> (r: usize)
        requires
            self.wf(),
        ensures
            match *self {
                IpSubnet::V4(v4) => r < 32 && v4.mask_bits() == mask_v4(r as u32),
                IpSubnet::V6(v6) => r < 128 && v6.mask_bits() == mask_v6(r as u32),
            },
    {
        match self {
            IpSubnet::V4(v4) => v4.prefixlen(),
            IpSubnet::V6(v6) => v6.prefixlen(),
        }
    }

    /// Whether the address is in the network.
    pub fn contains(&self, addr: IpAddr) -> (r: bool)
        requires
            self.wf(),
        ensures
            r == self.holds(addr),
    {
        match (self, addr) {
            (IpSubnet::V4(v4), IpAddr::V4(addr)) => v4.contains(addr),
            (IpSubnet::V6(v6), IpAddr::V6(addr)) => v6.contains(addr),
            _ => false,
        }
    }

    /// Whether some address is in both networks.
    pub open spec fn meets(self, other: IpSubnet) -> bool {
        exists|a: IpAddr| #[trigger] self.holds(a) && other.holds(a)
    }

    /// Whether some address is in both networks.
    pub fn intersects(&self, subnet: IpSubnet) -> (r: bool)
        requires
            self.wf(),
            subnet.wf(),
        ensures
            r == self.meets(subnet),
    {
        match (*self, subnet) {
            (IpSubnet::V4(v4), IpSubnet::V4(other)) => {
                let r = v4.intersects(other);
                proof {
                    if r {
                        let a = choose|a: Ipv4Addr| #[trigger] v4.holds(a) && other.holds(a);
                        assert(self.holds(IpAddr::V4(a)) && subnet.holds(IpAddr::V4(a)));
                    }
                    assert forall|a: IpAddr| #[trigger] self.holds(a) && subnet.holds(a) implies r by {
                        assert(v4.holds(a->V4_0) && other.holds(a->V4_0));
                    }
                }
                r
            },
            (IpSubnet::V6(v6), IpSubnet::V6(other)) => {
                let r = v6.intersects(other);
                proof {
                    if r {
                        let a = choose|a: Ipv6Addr| #[trigger] v6.holds(a) && other.holds(a);
                        assert(self.holds(IpAddr::V6(a)) && subnet.holds(IpAddr::V6(a)));
                    }
                    assert forall|a: IpAddr| #[trigger] self.holds(a) && subnet.holds(a) implies r by {
                        assert(v6.holds(a->V6_0) && other.holds(a->V6_0));
                    }
                }
                r
            },
            _ => false,
        }
    }
}

/// Networks of which no two have an address in common.
pub struct IpSubnets {
    subnets: Vec<IpSubnet>,
}

/// Whether each network is well formed and no two of them have an address in common.
pub open spec fn are_disjoint(subnets: Seq<IpSubnet>) -> bool {
    &&& forall|i: int| 0 <= i < subnets.len() ==> (#[trigger] subnets[i]).wf()
    &&& forall|i: int, j: int|
        0 <= i < j < subnets.len() ==> !(#[trigger] subnets[i]).meets(#[trigger] subnets[j])
}

impl View for IpSubnets {
    type V = Seq<IpSubnet>;

    closed spec fn view(&self) -> Seq<IpSubnet> {
        self.subnets@
    }
}

impl IpSubnets {
    /// No network.
    pub fn new() -> (r: Self)
        ensures
            r@ == Seq::<IpSubnet>::empty(),
            are_disjoint(r@),
    {
        IpSubnets { subnets: Vec::new() }
    }

    /// Whether the network has an address in common with one of the networks.
    pub fn is_taken(&self, subnet: IpSubnet) -> (r: bool)
        requires
            are_disjoint(self@),
            subnet.wf(),
        ensures
            r == (exists|i: int| 0 <= i < self@.len() && (#[trigger] self@[i]).meets(subnet)),
    {
        let mut i: usize = 0;
        while i < self.subnets.len()
            invariant
                i <= self.subnets.len(),
                are_disjoint(self@),
                subnet.wf(),
                forall|k: int| 0 <= k < i ==> !(#[trigger] self@[k]).meets(subnet),
            decreases self.subnets.len() - i,
        {
            if self.subnets[i].intersects(subnet) {
                assert(self@[i as int].meets(subnet));
                return true;
            }
            i = i + 1;
        }
        false
    }

    /// Adds a network, which has no address in common with those already there.
    pub fn add(&mut self, subnet: IpSubnet)
        requires
            are_disjoint(old(self)@),
            subnet.wf(),
            forall|i: int| 0 <= i < old(self)@.len() ==> !(#[trigger] old(self)@[i]).meets(subnet),
        ensures
            final(self)@ == old(self)@.push(subnet),
            are_disjoint(final(self)@),
    {
        self.subnets.push(subnet);
        assert(self@ =~= old(self)@.push(subnet));
        assert forall|i: int, j: int| 0 <= i < j < self@.len() implies !(#[trigger] self@[i]).meets(
            #[trigger] self@[j],
        ) by {
            assert(self@[i] == old(self)@[i]);
            if j < old(self)@.len() {
                assert(self@[j] == old(self)@[j]);
            }
        }
    }

    /// The number of networks.
    pub fn len(&self) -> (r: usize)
        ensures
            r == self@.len(),
    {
        self.subnets.len()
    }

    /// The network at the index.
    pub fn at(&self, index: usize) -> (r: IpSubnet)
        requires
            index < self@.len(),
        ensures
            r == self@[index as int],
    {
        self.subnets[index]
    }

    /// `fe80::/64`, then `192.168.0.0/16`.
    pub fn default_reverse() -> (r: IpSubnets)
        ensures
            are_disjoint(r@),
            r@.len() == 2,
            r@[0] is V6,
            r@[1] is V4,
            is_default_v6(r@[0]->V6_0),
            is_default_v4(r@[1]->V4_0),
    {
        let mut subnets: Vec<IpSubnet> = Vec::new();
        subnets.push(IpSubnet::V6(Ipv6Subnet::default()));
        subnets.push(IpSubnet::V4(Ipv4Subnet::default()));
        IpSubnets { subnets }
    }
}

/// Whether the network is `192.168.0.0/16`.
pub open spec fn is_default_v4(v4: Ipv4Subnet) -> bool {
    v4.prefix_bits() == 0xc0a8_0000 && v4.mask_bits() == mask_v4(16)
}

/// Whether the network is `fe80::/64`.
pub open spec fn is_default_v6(v6: Ipv6Subnet) -> bool {
    v6.prefix_bits() == 0xfe80_0000_0000_0000_0000_0000_0000_0000 && v6.mask_bits() == mask_v6(64)
}

impl Default for IpSubnets {
    /// `192.168.0.0/16`, then `fe80::/64`.
    fn default() -> (r: Self)
        ensures
            are_disjoint(r@),
            r@.len() == 2,
            r@[0] is V4,
            r@[1] is V6,
            is_default_v4(r@[0]->V4_0),
            is_default_v6(r@[1]->V6_0),
    {
        let mut subnets: Vec<IpSubnet> = Vec::new();
        subnets.push(IpSubnet::V4(Ipv4Subnet::default()));
        subnets.push(IpSubnet::V6(Ipv6Subnet::default()));
        IpSubnets { subnets }
    }
}

/// What is wrong with the text of a network. The syntax is `<addr>/<prefixlen>`.
#[derive(Clone, Copy, Debug, PartialEq, Eq, Structural)]
pub enum IpSubnetParsingError {
    /// The part before the slash is no address.
    AddrParseError,
    /// The part after the slash is no number.
    IntParseError,
    /// There is no slash.
    InvalidSubnetSyntax,
}

/// The address and the length that `<addr>/<prefixlen>` writes.
pub open spec fn subnet_text_v4(t: Seq<u8>) -> Result<(Ipv4Addr, int), IpSubnetParsingError> {
    let k = text::find(t, SLASH, 0);
    if k >= t.len() {
        Err(IpSubnetParsingError::InvalidSubnetSyntax)
    } else {
        match (text::parsed_v4(t.take(k)), text::unsigned(t.skip(k + 1), u64::MAX as int)) {
            (None, _) => Err(IpSubnetParsingError::AddrParseError),
            (_, None) => Err(IpSubnetParsingError::IntParseError),
            (Some(addr), Some(len)) => Ok((addr, len)),
        }
    }
}

impl Ipv4Subnet {
    /// The network that `<addr>/<prefixlen>` writes.
    pub fn from_str(s: &[u8]) -> (r: Result<Ipv4Subnet, IpSubnetParsingError>)
        requires
            subnet_text_v4(s@) is Ok ==> subnet_text_v4(s@)->Ok_0.1 < 32,
        ensures
            match subnet_text_v4(s@) {
                Err(e) => r == Err::<Ipv4Subnet, IpSubnetParsingError>(e),
                Ok(parts) => {
                    &&& r is Ok
                    &&& r->Ok_0.wf()
                    &&& r->Ok_0.mask_bits() == mask_v4(parts.1 as u32)
                    &&& r->Ok_0.prefix_bits() == parts.0.bits & mask_v4(parts.1 as u32)
                },
            },
    {
        let k: usize = text::find_from(s, SLASH, 0);
        if k == s.len() {
            return Err(IpSubnetParsingError::InvalidSubnetSyntax);
        }
        proof {
            assert(s@.take(k as int) =~= s@.subrange(0, k as int));
            assert(s@.skip(k + 1) =~= s@.subrange(k + 1, s@.len() as int));
        }
        match text::parse_ipv4(slice_subrange(s, 0, k)) {
            None => Err(IpSubnetParsingError::AddrParseError),
            Some(addr) => match text::parse_unsigned(slice_subrange(s, k + 1, s.len()), u64::MAX) {
                None => Err(IpSubnetParsingError::IntParseError),
                Some(len) => Ok(Ipv4Subnet::new(addr, len as usize)),
            },
        }
    }

    /// The network as text: `<addr>/<prefixlen>`.
    pub fn to_text(&self) -> (r: Vec<u8>)
        requires
            self.wf(),
        ensures
            exists|len: int|
                0 <= len < 32 && self.mask_bits() == mask_v4(len as u32) && r@
                    == #[trigger] written_v4(self.prefix_bits(), len),
    {
        let mut out: Vec<u8> = Vec::new();
        text::push_ipv4(&mut out, self.subnet);
        out.push(SLASH);
        let len: usize = self.prefixlen();
        text::push_number(&mut out, len as u32, 10);
        assert(out@ =~= written_v4(self.prefix_bits(), len as int));
        out
    }
}

/// The text of a network.
pub open spec fn written_v4(prefix: u32, len: int) -> Seq<u8> {
    text::text_v4(Ipv4Addr { bits: prefix }) + seq![SLASH] + text::numeral(len, 10)
}

/// The address and the length that `<addr>/<prefixlen>` writes.
pub open spec fn subnet_text_v6(t: Seq<u8>) -> Result<(Ipv6Addr, int), IpSubnetParsingError> {
    let k = text::find(t, SLASH, 0);
    if k >= t.len() {
        Err(IpSubnetParsingError::InvalidSubnetSyntax)
    } else {
        match (text::parsed_v6(t.take(k)), text::unsigned(t.skip(k + 1), u64::MAX as int)) {
            (None, _) => Err(IpSubnetParsingError::AddrParseError),
            (_, None) => Err(IpSubnetParsingError::IntParseError),
            (Some(addr), Some(len)) => Ok((addr, len)),
        }
    }
}

impl Ipv6Subnet {
    /// The network that `<addr>/<prefixlen>` writes.
    pub fn from_str(s: &[u8]) -> (r: Result<Ipv6Subnet, IpSubnetParsingError>)
        requires
            subnet_text_v6(s@) is Ok ==> subnet_text_v6(s@)->Ok_0.1 < 128,
        ensures
            match subnet_text_v6(s@) {
                Err(e) => r == Err::<Ipv6Subnet, IpSubnetParsingError>(e),
                Ok(parts) => {
                    &&& r is Ok
                    &&& r->Ok_0.wf()
                    &&& r->Ok_0.mask_bits() == mask_v6(parts.1 as u32)
                    &&& r->Ok_0.prefix_bits() == parts.0.bits & mask_v6(parts.1 as u32)
                },
            },
    {
        let k: usize = text::find_from(s, SLASH, 0);
        if k == s.len() {
            return Err(IpSubnetParsingError::InvalidSubnetSyntax);
        }
        proof {
            assert(s@.take(k as int) =~= s@.subrange(0, k as int));
            assert(s@.skip(k + 1) =~= s@.subrange(k + 1, s@.len() as int));
        }
        match text::parse_ipv6(slice_subrange(s, 0, k)) {
            None => Err(IpSubnetParsingError::AddrParseError),
            Some(addr) => match text::parse_unsigned(slice_subrange(s, k + 1, s.len()), u64::MAX) {
                None => Err(IpSubnetParsingError::IntParseError),
                Some(len) => Ok(Ipv6Subnet::new(addr, len as usize)),
            },
        }
    }

    /// The network as text: `<addr>/<prefixlen>`.
    pub fn to_text(&self) -> (r: Vec<u8>)
        requires
            self.wf(),
        ensures
            exists|len: int|
                0 <= len < 128 && self.mask_bits() == mask_v6(len as u32) && r@
                    == #[trigger] written_v6(self.prefix_bits(), len),
    {
        let mut out: Vec<u8> = Vec::new();
        text::push_ipv6(&mut out, self.subnet);
        out.push(SLASH);
        let len: usize = self.prefixlen();
        text::push_number(&mut out, len as u32, 10);
        assert(out@ =~= written_v6(self.prefix_bits(), len as int));
        out
    }
}

/// The text of a network.
pub open spec fn written_v6(prefix: u128, len: int) -> Seq<u8> {
    text::text_v6(Ipv6Addr { bits: prefix }) + seq![SLASH] + text::numeral(len, 10)
}

/// The kinds of networks that can be simulated.
#[derive(Clone, Copy, Debug, PartialEq, Eq, Structural)]
pub enum IpVersion {
    /// A network in `192.168.0.0/16`.
    V4,
    /// A network in `fe80::/64`.
    V6,
}

impl Default for IpVersion {
    /// The network of addresses of 32 bits.
    fn default() -> (r: Self)
        ensures
            r == IpVersion::V4,
    {
        IpVersion::V4
    }
}

/// Hands out the addresses of one network, one after the other.
#[derive(Clone, Copy, Debug, PartialEq, Eq, Structural)]
pub struct IpVersionAddrIter {
    /// The kind of network.
    pub version: IpVersion,
    /// The number below the prefix in the next address.
    pub next: u128,
}

/// The address of the network with the number below its prefix.
pub open spec fn version_addr(version: IpVersion, n: u128) -> IpAddr {
    match version {
        IpVersion::V4 => IpAddr::V4(
            Ipv4Addr {
                bits: ((n % 0x1_0000_0000) as u32 & !mask_v4(16)) | 0xc0a8_0000,
            },
        ),
        IpVersion::V6 => IpAddr::V6(
            Ipv6Addr {
                bits: (n & !mask_v6(64)) | 0xfe80_0000_0000_0000_0000_0000_0000_0000,
            },
        ),
    }
}

impl IpVersion {
    /// The addresses of the network, from the one with the number 1 on.
    pub fn iter(&self) -> (r: IpVersionAddrIter)
        ensures
            r == (IpVersionAddrIter { version: *self, next: 1 }),
    {
        IpVersionAddrIter { version: *self, next: 1 }
    }
}

impl IpVersionAddrIter {
    /// The next address.
    pub fn next_addr(&mut self) -> (r: IpAddr)
        ensures
            r == version_addr(old(self).version, old(self).next),
            final(self).version == old(self).version,
            final(self).next == (if old(self).next == u128::MAX { 0 } else { old(self).next + 1 }),
    {
        let n: u128 = self.next;
        if n == u128::MAX {
            self.next = 0;
        } else {
            self.next = n + 1;
        }
        match self.version {
            IpVersion::V4 => Ipv4Subnet::default().addr_from_entropy(n),
            IpVersion::V6 => Ipv6Subnet::default().addr_from_entropy(n),
        }
    }
}

/// How many bits, counted from the highest, two numbers of the given width share,
/// where they share the first `n`.
pub open spec fn shared_bits(a: u128, b: u128, width: u128, n: u128) -> u128
    decreases width - n,
{
    if n >= width {
        n
    } else if (a >> ((width - 1 - n) as u128)) & 1 == (b >> ((width - 1 - n) as u128)) & 1 {
        shared_bits(a, b, width, (n + 1) as u128)
    } else {
        n
    }
}

/// How many leading bits two addresses share. Addresses of different kinds share none.
pub open spec fn shared_prefix(a: IpAddr, b: IpAddr) -> u128 {
    match (a, b) {
        (IpAddr::V4(_), IpAddr::V4(_)) => shared_bits(a.number(), b.number(), 32, 0),
        (IpAddr::V6(_), IpAddr::V6(_)) => shared_bits(a.number(), b.number(), 128, 0),
        _ => 0,
    }
}

fn count_shared_bits(a: u128, b: u128, width: u128) -> (r: u128)
    requires
        width <= 128,
    ensures
        r == shared_bits(a, b, width, 0),
{
    let mut n: u128 = 0;
    while n < width && (a >> (width - 1 - n)) & 1 == (b >> (width - 1 - n)) & 1
        invariant
            n <= width <= 128,
            shared_bits(a, b, width, 0) == shared_bits(a, b, width, n),
        decreases width - n,
    {
        n = n + 1;
    }
    n
}

/// The address among the given ones that shares the longest prefix with the other, the
/// first of them where several do.
pub fn longest_prefix_match(addrs: &[IpAddr], other: IpAddr) -> (r: IpAddr)
    requires
        exists|i: int| 0 <= i < addrs@.len() && #[trigger] shared_prefix(addrs@[i], other) > 0,
    ensures
        exists|i: int|
            {
                &&& 0 <= i < addrs@.len()
                &&& r == #[trigger] addrs@[i]
                &&& shared_prefix(r, other) > 0
                &&& forall|j: int|
                    0 <= j < addrs@.len() ==> #[trigger] shared_prefix(addrs@[j], other)
                        <= shared_prefix(r, other)
                &&& forall|j: int|
                    0 <= j < i ==> #[trigger] shared_prefix(addrs@[j], other) < shared_prefix(r, other)
            },
{
    let mut max: u128 = 0;
    let mut best: usize = 0;
    let mut i: usize = 0;
    while i < addrs.len()
        invariant
            i <= addrs@.len(),
            0 < addrs@.len(),
            best < addrs@.len(),
            max > 0 ==> best < i && max == shared_prefix(addrs@[best as int], other),
            forall|j: int| 0 <= j < i ==> #[trigger] shared_prefix(addrs@[j], other) <= max,
            forall|j: int| 0 <= j < best ==> #[trigger] shared_prefix(addrs@[j], other) < max || max == 0,
            max == 0 ==> best == 0,
        decreases addrs.len() - i,
    {
        let prefixlen: u128 = match (addrs[i], other) {
            (IpAddr::V4(a), IpAddr::V4(b)) => count_shared_bits(a.bits as u128, b.bits as u128, 32),
            (IpAddr::V6(a), IpAddr::V6(b)) => count_shared_bits(a.bits, b.bits, 128),
            _ => 0,
        };
        assert(prefixlen == shared_prefix(addrs@[i as int], other));
        if prefixlen > max {
            max = prefixlen;
            best = i;
        }
        i = i + 1;
    }
    assert(addrs@[best as int] == addrs[best as int]);
    addrs[best]
}

/// Two networks have an address in common, or not, whichever is named first.
pub proof fn law_meeting_is_mutual(a: IpSubnet, b: IpSubnet)
    ensures
        a.meets(b) == b.meets(a),
{
    if a.meets(b) {
        let x = choose|x: IpAddr| #[trigger] a.holds(x) && b.holds(x);
        assert(b.holds(x) && a.holds(x));
    }
    if b.meets(a) {
        let x = choose|x: IpAddr| #[trigger] b.holds(x) && a.holds(x);
        assert(a.holds(x) && b.holds(x));
    }
}

/// Prefixes of different lengths have different masks: a network has one prefix length.
pub proof fn law_prefix_length_is_unique(m: u32, n: u32)
    ensures
        m < 32 && n < 32 && mask_v4(m) == mask_v4(n) ==> m == n,
        m < 128 && n < 128 && mask_v6(m) == mask_v6(n) ==> m == n,
{
    assert(m < 32 && n < 32 && !(0xffff_ffffu32 >> m) == !(0xffff_ffffu32 >> n) ==> m == n)
        by (bit_vector);
    assert(m < 128 && n < 128 && !(0xffff_ffff_ffff_ffff_ffff_ffff_ffff_ffffu128 >> m)
        == !(0xffff_ffff_ffff_ffff_ffff_ffff_ffff_ffffu128 >> n) ==> m == n) by (bit_vector);
}

/// The addresses handed out lie in the network of their kind, and those with different
/// numbers that fit below the prefix are different.
pub proof fn law_handed_out_addresses(version: IpVersion, n: u128, m: u128)
    requires
        match version {
            IpVersion::V4 => n < 0x1_0000 && m < 0x1_0000,
            IpVersion::V6 => n < 0x1_0000_0000_0000_0000 && m < 0x1_0000_0000_0000_0000,
        },
    ensures
        version_addr(version, n) == version_addr(version, m) ==> n == m,
        version is V4 ==> version_addr(version, n).number() == 0xc0a8_0000 + n,
        version is V6 ==> version_addr(version, n).number()
            == 0xfe80_0000_0000_0000_0000_0000_0000_0000 + n,
{
    match version {
        IpVersion::V4 => {
            lemma_member_v4(n as u32);
            lemma_member_v4(m as u32);
        },
        IpVersion::V6 => {
            lemma_member_v6(n);
            lemma_member_v6(m);
        },
    }
}

/// Whether the number fits in the bits of the network's addresses below the prefix.
pub open spec fn fits_below(subnet: IpSubnet, n: u128) -> bool {
    match subnet {
        IpSubnet::V4(v4) => n < 0x1_0000_0000 && (n as u32) & !v4.mask_bits() == n as u32,
        IpSubnet::V6(v6) => n & !v6.mask_bits() == n,
    }
}

/// Different numbers that fit below the prefix of a network give different addresses.
pub proof fn law_members_differ(subnet: IpSubnet, n: u128, m: u128)
    requires
        subnet.wf(),
        fits_below(subnet, n),
        fits_below(subnet, m),
        n != m,
    ensures
        subnet.member(n) != subnet.member(m),
{
    match subnet {
        IpSubnet::V4(v4) => {
            let a = n as u32;
            let b = m as u32;
            let mask = v4.mask_bits();
            let p = v4.prefix_bits();
            assert((a & !mask) | p != (b & !mask) | p) by (bit_vector)
                requires
                    a != b,
                    a & !mask == a,
                    b & !mask == b,
                    p & mask == p,
            ;
        },
        IpSubnet::V6(v6) => {
            let mask = v6.mask_bits();
            let p = v6.prefix_bits();
            assert((n & !mask) | p != (m & !mask) | p) by (bit_vector)
                requires
                    n != m,
                    n & !mask == n,
                    m & !mask == m,
                    p & mask == p,
            ;
        },
    }
}

proof fn lemma_member_v4(n: u32)
    requires
        n < 0x1_0000,
    ensures
        (n & !mask_v4(16)) | 0xc0a8_0000 == 0xc0a8_0000 + n,
{
    assert((n & !(!(0xffff_ffffu32 >> 16))) | 0xc0a8_0000 == 0xc0a8_0000 + n) by (bit_vector)
        requires
            n < 0x1_0000,
    ;
}

proof fn lemma_member_v6(n: u128)
    requires
        n < 0x1_0000_0000_0000_0000,
    ensures
        (n & !mask_v6(64)) | 0xfe80_0000_0000_0000_0000_0000_0000_0000
            == 0xfe80_0000_0000_0000_0000_0000_0000_0000 + n,
{
    assert((n & !(!(0xffff_ffff_ffff_ffff_ffff_ffff_ffff_ffffu128 >> 64)))
        | 0xfe80_0000_0000_0000_0000_0000_0000_0000
        == 0xfe80_0000_0000_0000_0000_0000_0000_0000 + n) by (bit_vector)
        requires
            n < 0x1_0000_0000_0000_0000,
    ;
}

} // verus!
