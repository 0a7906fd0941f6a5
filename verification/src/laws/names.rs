//! Laws of names, of the addresses that they stand for and of the networks of those.
use crate::addr::{IpAddr, Ipv4Addr, Ipv6Addr, SocketAddr};
use crate::dns;
use crate::dns::{DnsView, ToIpAddrs};
use crate::error::{Cause, Error, ErrorKind};
use crate::ip;
use crate::ip::{IpSubnet, IpSubnetParsingError, Ipv4Subnet, Ipv6Subnet};
use crate::log;
use crate::pattern;
use crate::pattern::Pattern;
use crate::text;
use vstd::prelude::*;

verus! {

/// A text that writes an address stands for it, whatever the hosts are called. Another one
/// stands for the first address of the host of that name.
pub proof fn law_what_a_text_stands_for(d: DnsView, t: Seq<u8>)
    ensures
        text::parsed_ip(t) is Some ==> d.resolved(t) == text::parsed_ip(t),
        text::parsed_ip(t) is None && d.names.map.contains_key(t) && d.names.map[t].len() > 0
            ==> d.resolved(t) == Some(d.names.map[t][0]),
        text::parsed_ip(t) is None && (!d.names.map.contains_key(t) || d.names.map[t].len() == 0)
            ==> d.resolved(t) is None,
{
}

/// A text that writes no socket address is a host and a port, which its last colon separates.
/// Without a colon it is no address, with another port than a number of 16 bits it has no
/// port, and a host that stands for no address is not found.
pub proof fn law_what_a_socket_text_stands_for(d: DnsView, t: Seq<u8>, k: int)
    requires
        text::parsed_socket(t) is None,
        -1 <= k < t.len(),
        k >= 0 ==> t[k] == 58u8,
        forall|j: int| k < j < t.len() ==> #[trigger] t[j] != 58u8,
    ensures
        k < 0 ==> d.socket_text(t) == Err::<SocketAddr, Error>(
            Error { kind: ErrorKind::InvalidInput, cause: Cause::InvalidSocketAddress },
        ),
        k >= 0 ==> match text::unsigned(t.subrange(k + 1, t.len() as int), 65535) {
            None => d.socket_text(t) == Err::<SocketAddr, Error>(
                Error { kind: ErrorKind::InvalidInput, cause: Cause::InvalidPort },
            ),
            Some(port) => match d.resolved(t.subrange(0, k)) {
                None => d.socket_text(t) == Err::<SocketAddr, Error>(
                    Error { kind: ErrorKind::NotFound, cause: Cause::HostNotFound },
                ),
                Some(a) => d.socket_text(t) == Ok::<SocketAddr, Error>(
                    SocketAddr { ip: a, port: port as u16 },
                ),
            },
        },
{
    lemma_find_last(t, k, t.len() as int);
    if k >= 0 {
        assert(t.skip(k + 1) =~= t.subrange(k + 1, t.len() as int));
        assert(t.take(k) =~= t.subrange(0, k));
    }
}

proof fn lemma_find_last(t: Seq<u8>, k: int, end: int)
    requires
        -1 <= k < end <= t.len() || (k == -1 && end == 0),
        k >= 0 ==> t[k] == 58u8,
        forall|j: int| k < j < end ==> #[trigger] t[j] != 58u8,
    ensures
        text::find_last(t, 58u8, end) == k,
    decreases end,
{
    if end > k + 1 {
        assert(t[end - 1] != 58u8);
        lemma_find_last(t, k, end - 1);
    }
}

/// A text that writes a socket address stands for it.
pub proof fn law_written_socket_address(d: DnsView, t: Seq<u8>, a: SocketAddr)
    requires
        text::parsed_socket(t) == Some(a),
    ensures
        d.socket_text(t) == Ok::<SocketAddr, Error>(a),
{
}

/// A registered host has one address in each network. It is the first of its fixed addresses
/// that lies there; the network's count stays. Without one it is the address with the
/// network's count, which moves on by one. Other names and what else is known stay.
pub proof fn law_registered_host_has_an_address_in_each_network(
    d: DnsView,
    name: Seq<u8>,
    fixed: Seq<IpAddr>,
    i: int,
    j: int,
    other: Seq<u8>,
)
    requires
        d.wf(),
        0 <= i < d.subnets.len(),
    ensures
        ({
            let after = d.registered(name, fixed);
            let addrs = after.names.map[name];
            &&& after.names.map.contains_key(name)
            &&& addrs.len() == d.subnets.len() && after.counters.len() == d.counters.len()
            &&& 0 <= j < fixed.len() && d.subnets[i].holds(fixed[j]) && (forall|k: int|
                0 <= k < j ==> !d.subnets[i].holds(#[trigger] fixed[k])) ==> addrs[i] == fixed[j]
                && after.counters[i] == d.counters[i]
            &&& (forall|k: int| 0 <= k < fixed.len() ==> !d.subnets[i].holds(#[trigger] fixed[k]))
                ==> addrs[i] == d.subnets[i].member(d.counters[i]) && (d.counters[i] < u128::MAX
                ==> after.counters[i] == d.counters[i] + 1) && (d.counters[i] == u128::MAX
                ==> after.counters[i] == 0)
            &&& d.subnets[i].holds(addrs[i])
            &&& (after.addrs, after.subnets) == (d.addrs, d.subnets)
            &&& other != name ==> after.names.map.contains_key(other)
                == d.names.map.contains_key(other) && (d.names.map.contains_key(other)
                ==> after.names.map[other] == d.names.map[other])
            &&& d.names.map.contains_key(name) ==> after.names.order == d.names.order
            &&& !d.names.map.contains_key(name) ==> after.names.order == d.names.order.push(name)
        }),
{
    let subnet = d.subnets[i];
    lemma_first_in(subnet, fixed, 0);
    lemma_member_is_in(subnet, d.counters[i]);
    let f = dns::first_in(subnet, fixed, 0);
    if 0 <= j < fixed.len() && subnet.holds(fixed[j]) && (forall|k: int|
        0 <= k < j ==> !subnet.holds(#[trigger] fixed[k])) {
        if f < j {
            assert(!subnet.holds(fixed[f]));
        }
        if j < f {
            assert(!subnet.holds(fixed[j]));
        }
    }
    if forall|k: int| 0 <= k < fixed.len() ==> !subnet.holds(#[trigger] fixed[k]) {
        if f < fixed.len() {
            assert(!subnet.holds(fixed[f]));
        }
    }
}

proof fn lemma_first_in(subnet: IpSubnet, addrs: Seq<IpAddr>, j: int)
    requires
        0 <= j <= addrs.len(),
    ensures
        ({
            let f = dns::first_in(subnet, addrs, j);
            &&& j <= f <= addrs.len()
            &&& f < addrs.len() ==> subnet.holds(addrs[f])
            &&& forall|k: int| j <= k < f ==> !subnet.holds(#[trigger] addrs[k])
        }),
    decreases addrs.len() - j,
{
    if j < addrs.len() && !subnet.holds(addrs[j]) {
        lemma_first_in(subnet, addrs, j + 1);
    }
}

proof fn lemma_member_is_in(subnet: IpSubnet, n: u128)
    requires
        subnet.wf(),
    ensures
        subnet.holds(subnet.member(n)),
{
    match subnet {
        IpSubnet::V4(v4) => {
            let e = (n % 0x1_0000_0000) as u32;
            let m = v4.mask_bits();
            let p = v4.prefix_bits();
            assert(((e & !m) | p) & m == p) by (bit_vector)
                requires
                    p & m == p,
            ;
        },
        IpSubnet::V6(v6) => {
            let m = v6.mask_bits();
            let p = v6.prefix_bits();
            assert(((n & !m) | p) & m == p) by (bit_vector)
                requires
                    p & m == p,
            ;
        },
    }
}

/// A host on one network has the address that it asks for, and the count stays; or else the
/// one with the count, which moves on by one. Other names stay.
pub proof fn law_registered_host_on_one_network(
    d: DnsView,
    name: Seq<u8>,
    asked: Option<IpAddr>,
    other: Seq<u8>,
)
    ensures
        ({
            let after = d.registered_alone(name, asked);
            &&& after.names.map.contains_key(name) && after.names.map[name].len() == 1
            &&& asked matches Some(a) ==> after.names.map[name][0] == a && after.addrs == d.addrs
            &&& asked is None ==> after.names.map[name][0] == ip::version_addr(
                d.addrs.version,
                d.addrs.next,
            ) && after.addrs.version == d.addrs.version
            &&& asked is None && d.addrs.next < u128::MAX ==> after.addrs.next == d.addrs.next + 1
            &&& asked is None && d.addrs.next == u128::MAX ==> after.addrs.next == 0
            &&& (after.subnets, after.counters) == (d.subnets, d.counters)
            &&& other != name ==> after.names.map.contains_key(other)
                == d.names.map.contains_key(other) && (d.names.map.contains_key(other)
                ==> after.names.map[other] == d.names.map[other])
            &&& d.names.map.contains_key(name) ==> after.names.order == d.names.order
            &&& !d.names.map.contains_key(name) ==> after.names.order == d.names.order.push(name)
        }),
{
}

/// Of the names the first that has the address is found, and none where none has it.
pub proof fn law_name_of_an_address(d: DnsView, a: IpAddr)
    ensures
        ({
            let f = d.first_named(a, 0);
            let n = d.names.order.len();
            &&& 0 <= f <= n
            &&& f < n ==> d.names.map[d.names.order[f]].contains(a)
            &&& forall|k: int|
                0 <= k < f ==> !d.names.map[#[trigger] d.names.order[k]].contains(a)
        }),
{
    lemma_first_named(d, a, 0);
}

proof fn lemma_first_named(d: DnsView, a: IpAddr, i: int)
    requires
        0 <= i <= d.names.order.len(),
    ensures
        ({
            let f = d.first_named(a, i);
            let n = d.names.order.len();
            &&& i <= f <= n
            &&& f < n ==> d.names.map[d.names.order[f]].contains(a)
            &&& forall|k: int|
                i <= k < f ==> !d.names.map[#[trigger] d.names.order[k]].contains(a)
        }),
    decreases d.names.order.len() - i,
{
    if i < d.names.order.len() && !d.names.nth(i).contains(a) {
        lemma_first_named(d, a, i + 1);
    }
}

/// A pattern stands for the addresses of the names that it matches, in the order in which the
/// names came.
pub proof fn law_what_a_pattern_stands_for(d: DnsView, p: Pattern)
    ensures
        p.resolved_all(d) == d.names.order.filter(
            |n: Seq<u8>| pattern::name_matches(p@, n) && d.resolved(n) is Some,
        ).map_values(|n: Seq<u8>| d.resolved(n)->0),
{
    let n = d.names.order.len() as int;
    lemma_hit_addrs(d, p@, n);
    assert(d.names.order.take(n) =~= d.names.order);
}

proof fn lemma_hit_addrs(d: DnsView, p: Seq<char>, n: int)
    requires
        0 <= n <= d.names.order.len(),
    ensures
        d.hit_addrs(dns::hits(p, d.names.order), n) == d.names.order.take(n).filter(
            |n: Seq<u8>| pattern::name_matches(p, n) && d.resolved(n) is Some,
        ).map_values(|n: Seq<u8>| d.resolved(n)->0),
    decreases n,
{
    reveal(Seq::filter);
    let hit = |n: Seq<u8>| pattern::name_matches(p, n) && d.resolved(n) is Some;
    let addr = |n: Seq<u8>| d.resolved(n)->0;
    if n > 0 {
        lemma_hit_addrs(d, p, n - 1);
        let here = d.names.order.take(n);
        assert(here.drop_last() =~= d.names.order.take(n - 1));
        let before = here.drop_last().filter(hit);
        if hit(here.last()) {
            assert(before.push(here.last()).map_values(addr) =~= before.map_values(addr).push(
                addr(here.last()),
            ));
        }
    } else {
        assert(d.names.order.take(0).filter(hit).map_values(addr) =~= Seq::empty());
    }
}

/// An address of 32 bits is in a network if it differs from the network's own only in the
/// bits below the prefix.
pub proof fn law_network_of_32_bits(v4: Ipv4Subnet, base: Ipv4Addr, len: u32, a: Ipv4Addr)
    requires
        len < 32,
        v4.mask_bits() == ip::mask_v4(len),
        v4.prefix_bits() == base.bits & ip::mask_v4(len),
    ensures
        v4.holds(a) <==> (a.bits ^ base.bits) <= 0xffff_ffffu32 >> len,
{
    let (x, y) = (a.bits, base.bits);
    assert((x & !(0xffff_ffffu32 >> len) == y & !(0xffff_ffffu32 >> len)) <==> (x ^ y)
        <= 0xffff_ffffu32 >> len) by (bit_vector)
        requires
            len < 32,
    ;
}

/// An address of 128 bits is in a network if it differs from the network's own only in the
/// bits below the prefix.
pub proof fn law_network_of_128_bits(v6: Ipv6Subnet, base: Ipv6Addr, len: u32, a: Ipv6Addr)
    requires
        len < 128,
        v6.mask_bits() == ip::mask_v6(len),
        v6.prefix_bits() == base.bits & ip::mask_v6(len),
    ensures
        v6.holds(a) <==> (a.bits ^ base.bits)
            <= 0xffff_ffff_ffff_ffff_ffff_ffff_ffff_ffffu128 >> len,
{
    let (x, y) = (a.bits, base.bits);
    assert((x & !(0xffff_ffff_ffff_ffff_ffff_ffff_ffff_ffffu128 >> len) == y & !(
    0xffff_ffff_ffff_ffff_ffff_ffff_ffff_ffffu128 >> len)) <==> (x ^ y)
        <= 0xffff_ffff_ffff_ffff_ffff_ffff_ffff_ffffu128 >> len) by (bit_vector)
        requires
            len < 128,
    ;
}

/// The address of a network with a number that fits below the prefix is so many places after
/// the prefix.
pub proof fn law_members_count_from_the_prefix(v4: Ipv4Subnet, v6: Ipv6Subnet, len: u32, n: u128)
    requires
        len < 128,
        v6.wf() && v6.mask_bits() == ip::mask_v6(len),
        n <= 0xffff_ffff_ffff_ffff_ffff_ffff_ffff_ffffu128 >> len,
        len < 32 ==> v4.wf() && v4.mask_bits() == ip::mask_v4(len),
    ensures
        IpSubnet::V6(v6).member(n) matches IpAddr::V6(a) && a.bits == v6.prefix_bits() + n,
        len < 32 && n <= 0xffff_ffffu32 >> len ==> (IpSubnet::V4(v4).member(n) matches IpAddr::V4(
            a,
        ) && a.bits == v4.prefix_bits() + n),
{
    let p = v6.prefix_bits();
    let m = v6.mask_bits();
    assert((n & !m) | p == p + n) by (bit_vector)
        requires
            len < 128,
            m == !(0xffff_ffff_ffff_ffff_ffff_ffff_ffff_ffffu128 >> len),
            p & m == p,
            n <= 0xffff_ffff_ffff_ffff_ffff_ffff_ffff_ffffu128 >> len,
    ;
    if len < 32 && n <= 0xffff_ffffu32 >> len {
        let q = v4.prefix_bits();
        let k = v4.mask_bits();
        let e = (n % 0x1_0000_0000) as u32;
        assert(0xffff_ffffu32 >> len <= 0xffff_ffffu32) by (bit_vector);
        assert(e == n);
        assert((e & !k) | q == q + e) by (bit_vector)
            requires
                len < 32,
                k == !(0xffff_ffffu32 >> len),
                q & k == q,
                e <= 0xffff_ffffu32 >> len,
        ;
    }
}

/// Two addresses of one kind share so many bits, counted from the highest, as agree; the next
/// one differs. Addresses of different kinds share none.
pub proof fn law_bits_that_are_shared(a: IpAddr, b: IpAddr, k: u128)
    ensures
        ({
            let n = ip::shared_prefix(a, b);
            match (a, b) {
                (IpAddr::V4(x), IpAddr::V4(y)) => {
                    &&& n <= 32
                    &&& k < n ==> (a.number() >> ((31 - k) as u128)) & 1 == (b.number() >> ((31
                        - k) as u128)) & 1
                    &&& n < 32 ==> (a.number() >> ((31 - n) as u128)) & 1 != (b.number() >> ((31
                        - n) as u128)) & 1
                },
                (IpAddr::V6(x), IpAddr::V6(y)) => {
                    &&& n <= 128
                    &&& k < n ==> (a.number() >> ((127 - k) as u128)) & 1 == (b.number() >> ((127
                        - k) as u128)) & 1
                    &&& n < 128 ==> (a.number() >> ((127 - n) as u128)) & 1 != (b.number() >> ((127
                        - n) as u128)) & 1
                },
                _ => n == 0,
            }
        }),
{
    match (a, b) {
        (IpAddr::V4(_), IpAddr::V4(_)) => lemma_shared(a.number(), b.number(), 32, 0, k),
        (IpAddr::V6(_), IpAddr::V6(_)) => lemma_shared(a.number(), b.number(), 128, 0, k),
        _ => {},
    }
}

proof fn lemma_shared(a: u128, b: u128, width: u128, from: u128, k: u128)
    requires
        from <= width <= 128,
    ensures
        ({
            let n = ip::shared_bits(a, b, width, from);
            &&& from <= n <= width
            &&& from <= k < n ==> (a >> ((width - 1 - k) as u128)) & 1 == (b >> ((width - 1
                - k) as u128)) & 1
            &&& n < width ==> (a >> ((width - 1 - n) as u128)) & 1 != (b >> ((width - 1
                - n) as u128)) & 1
        }),
    decreases width - from,
{
    if from < width && (a >> ((width - 1 - from) as u128)) & 1 == (b >> ((width - 1
        - from) as u128)) & 1 {
        lemma_shared(a, b, width, (from + 1) as u128, k);
    }
}

/// The text of a network is an address and a length, which the first slash separates. Without a
/// slash it is no network; with something else before the slash it has no address, and else with
/// something else behind it no length.
pub proof fn law_what_the_text_of_a_network_says(t: Seq<u8>, k: int)
    requires
        0 <= k <= t.len(),
        k < t.len() ==> t[k] == 47u8,
        forall|j: int| 0 <= j < k ==> #[trigger] t[j] != 47u8,
    ensures
        ({
            let (r, s) = (ip::subnet_text_v4(t), ip::subnet_text_v6(t));
            let len = text::unsigned(t.subrange(k + 1, t.len() as int), 0xffff_ffff_ffff_ffff);
            let (x, y) = (text::parsed_v4(t.subrange(0, k)), text::parsed_v6(t.subrange(0, k)));
            &&& k == t.len() ==> r == Err::<(Ipv4Addr, int), IpSubnetParsingError>(
                IpSubnetParsingError::InvalidSubnetSyntax,
            ) && s == Err::<(Ipv6Addr, int), IpSubnetParsingError>(
                IpSubnetParsingError::InvalidSubnetSyntax,
            )
            &&& k < t.len() ==> {
                &&& x is None ==> r == Err::<(Ipv4Addr, int), IpSubnetParsingError>(
                    IpSubnetParsingError::AddrParseError,
                )
                &&& y is None ==> s == Err::<(Ipv6Addr, int), IpSubnetParsingError>(
                    IpSubnetParsingError::AddrParseError,
                )
                &&& x is Some && len is None ==> r == Err::<(Ipv4Addr, int), IpSubnetParsingError>(
                    IpSubnetParsingError::IntParseError,
                )
                &&& y is Some && len is None ==> s == Err::<(Ipv6Addr, int), IpSubnetParsingError>(
                    IpSubnetParsingError::IntParseError,
                )
                &&& x is Some && len is Some ==> r == Ok::<(Ipv4Addr, int), IpSubnetParsingError>(
                    (x->0, len->0),
                )
                &&& y is Some && len is Some ==> s == Ok::<(Ipv6Addr, int), IpSubnetParsingError>(
                    (y->0, len->0),
                )
            }
        }),
{
    lemma_find(t, k, 0);
    if k < t.len() {
        assert(t.skip(k + 1) =~= t.subrange(k + 1, t.len() as int));
        assert(t.take(k) =~= t.subrange(0, k));
    }
}

proof fn lemma_find(t: Seq<u8>, k: int, from: int)
    requires
        0 <= from <= k <= t.len(),
        k < t.len() ==> t[k] == 47u8,
        forall|j: int| 0 <= j < k ==> #[trigger] t[j] != 47u8,
    ensures
        text::find(t, 47u8, from) == k,
    decreases k - from,
{
    if from < k {
        assert(t[from] != 47u8);
        lemma_find(t, k, from + 1);
    }
}

/// In the log a host goes by the first name that has its address.
pub proof fn law_name_in_the_log(d: DnsView, a: SocketAddr, i: int)
    requires
        0 <= i < d.names.order.len(),
        d.names.map[d.names.order[i]].contains(a.ip),
        forall|k: int| 0 <= k < i ==> !d.names.map[#[trigger] d.names.order[k]].contains(a.ip),
    ensures
        log::is_named(d, a),
        log::name_of(d, a) == d.names.order[i],
{
    law_name_of_an_address(d, a.ip);
    let f = d.first_named(a.ip, 0);
    if f < i {
        assert(!d.names.map[d.names.order[f]].contains(a.ip));
    }
    if i < f {
        assert(!d.names.map[d.names.order[i]].contains(a.ip));
    }
}

} // verus!
