//! How numbers and addresses are written.
use crate::addr;
use crate::addr::{IpAddr, Ipv4Addr, Ipv6Addr, SocketAddr};
use vstd::prelude::*;
use vstd::slice::slice_subrange;

verus! {

/// `.`
pub const DOT: u8 = 46;

/// `:`
pub const COLON: u8 = 58;

/// `/`
pub const SLASH: u8 = 47;

/// `+`
pub const PLUS: u8 = 43;

/// `[`
pub const OPEN: u8 = 91;

/// `]`
pub const CLOSE: u8 = 93;

/// What a character counts as a digit, 99 where it is none.
pub open spec fn digit(b: u8) -> int {
    if 48 <= b <= 57 {
        b - 48
    } else if 97 <= b <= 102 {
        b - 87
    } else if 65 <= b <= 70 {
        b - 55
    } else {
        99
    }
}

/// Whether each character is a digit of the base.
pub open spec fn all_digits(t: Seq<u8>, base: int) -> bool {
    forall|i: int| 0 <= i < t.len() ==> digit(#[trigger] t[i]) < base
}

/// The number that digits write.
pub open spec fn value_of(t: Seq<u8>, base: int) -> int
    decreases t.len(),
{
    if t.len() == 0 {
        0
    } else {
        value_of(t.drop_last(), base) * base + digit(t.last())
    }
}

/// The number that the text writes, if it is one or more digits and does not exceed the
/// limit.
pub open spec fn number(t: Seq<u8>, base: int, limit: int) -> Option<int> {
    if t.len() > 0 && all_digits(t, base) && value_of(t, base) <= limit {
        Some(value_of(t, base))
    } else {
        None
    }
}

/// The number that the text writes in decimal, with or without a plus sign.
pub open spec fn unsigned(t: Seq<u8>, limit: int) -> Option<int> {
    if t.len() > 0 && t[0] == PLUS {
        number(t.skip(1), 10, limit)
    } else {
        number(t, 10, limit)
    }
}

/// One part of an address of 32 bits: up to three decimal digits, the first of which is
/// zero only where it is alone.
pub open spec fn octet_value(t: Seq<u8>) -> Option<int> {
    if t.len() <= 3 && !(t.len() > 1 && t[0] == 48) {
        number(t, 10, 255)
    } else {
        None
    }
}

/// One part of an address of 128 bits: up to four hexadecimal digits.
pub open spec fn group_value(t: Seq<u8>) -> Option<int> {
    if t.len() <= 4 {
        number(t, 16, 0xffff)
    } else {
        None
    }
}

/// The index of the first such character from the given index on, or the end.
pub open spec fn find(t: Seq<u8>, b: u8, from: int) -> int
    decreases t.len() - from,
{
    if from >= t.len() {
        t.len() as int
    } else if t[from] == b {
        from
    } else {
        find(t, b, from + 1)
    }
}

proof fn lemma_find(t: Seq<u8>, b: u8, from: int)
    requires
        0 <= from <= t.len(),
    ensures
        from <= find(t, b, from) <= t.len(),
        find(t, b, from) < t.len() ==> t[find(t, b, from)] == b,
        forall|i: int| from <= i < find(t, b, from) ==> t[i] != b,
    decreases t.len() - from,
{
    if from < t.len() && t[from] != b {
        lemma_find(t, b, from + 1);
    }
}

/// The index of the last such character before the given index, or -1.
pub open spec fn find_last(t: Seq<u8>, b: u8, end: int) -> int
    decreases end,
{
    if end <= 0 {
        -1
    } else if t[end - 1] == b {
        end - 1
    } else {
        find_last(t, b, end - 1)
    }
}

/// The index of the first two colons in a row from the given index on, or the end.
pub open spec fn find_gap(t: Seq<u8>, from: int) -> int
    decreases t.len() - from,
{
    if from + 1 >= t.len() {
        t.len() as int
    } else if t[from] == COLON && t[from + 1] == COLON {
        from
    } else {
        find_gap(t, from + 1)
    }
}

/// The parts of the text from the index on, which the character separates.
pub open spec fn pieces(t: Seq<u8>, sep: u8, from: int) -> Seq<Seq<u8>>
    decreases t.len() - from,
{
    let k = find(t, sep, from);
    if 0 <= from <= k < t.len() {
        seq![t.subrange(from, k)] + pieces(t, sep, k + 1)
    } else {
        seq![t.subrange(from, t.len() as int)]
    }
}

/// The address of 32 bits that the text writes: four parts, separated by dots.
pub open spec fn parsed_v4(t: Seq<u8>) -> Option<Ipv4Addr> {
    let p = pieces(t, DOT, 0);
    if p.len() == 4 && octet_value(p[0]) is Some && octet_value(p[1]) is Some && octet_value(
        p[2],
    ) is Some && octet_value(p[3]) is Some {
        Some(
            Ipv4Addr {
                bits: (octet_value(p[0])->0 * 0x100_0000 + octet_value(p[1])->0 * 0x1_0000
                    + octet_value(p[2])->0 * 0x100 + octet_value(p[3])->0) as u32,
            },
        )
    } else {
        None
    }
}

/// The parts of an address of 128 bits that the pieces write. The last piece may write
/// two of them in the form of an address of 32 bits.
pub open spec fn groups(p: Seq<Seq<u8>>, dotted: bool) -> Option<Seq<int>>
    decreases p.len(),
{
    if p.len() == 0 {
        Some(Seq::empty())
    } else if p.len() == 1 && dotted && parsed_v4(p[0]) is Some {
        let v4 = parsed_v4(p[0])->0;
        Some(seq![v4.bits as int / 0x1_0000, v4.bits as int % 0x1_0000])
    } else {
        match (group_value(p[0]), groups(p.skip(1), dotted)) {
            (Some(g), Some(rest)) => Some(seq![g] + rest),
            _ => None,
        }
    }
}

/// The parts of an address of 128 bits that the text writes, separated by colons. An
/// empty text writes none.
pub open spec fn groups_of(t: Seq<u8>, dotted: bool) -> Option<Seq<int>> {
    if t.len() == 0 {
        Some(Seq::empty())
    } else {
        groups(pieces(t, COLON, 0), dotted)
    }
}

/// The number whose groups of 16 bits are given.
pub open spec fn joined(g: Seq<int>) -> int
    decreases g.len(),
{
    if g.len() == 0 {
        0
    } else {
        addr::with_group(joined(g.drop_last()), g.last())
    }
}

/// So many groups of zeros.
pub open spec fn zeros(n: int) -> Seq<int> {
    Seq::new(n as nat, |i: int| 0)
}

/// The address of 128 bits that the text writes: eight parts, or fewer where two colons
/// stand for those that are zero.
pub open spec fn parsed_v6(t: Seq<u8>) -> Option<Ipv6Addr> {
    let k = find_gap(t, 0);
    if k < t.len() {
        match (groups_of(t.take(k), false), groups_of(t.skip(k + 2), true)) {
            (Some(head), Some(tail)) => if head.len() + tail.len() <= 7 {
                Some(
                    Ipv6Addr {
                        bits: joined(head + zeros(8 - head.len() - tail.len()) + tail) as u128,
                    },
                )
            } else {
                None
            },
            _ => None,
        }
    } else {
        match groups_of(t, true) {
            Some(g) => if g.len() == 8 {
                Some(Ipv6Addr { bits: joined(g) as u128 })
            } else {
                None
            },
            None => None,
        }
    }
}

/// The address that the text writes.
pub open spec fn parsed_ip(t: Seq<u8>) -> Option<IpAddr> {
    match parsed_v4(t) {
        Some(a) => Some(IpAddr::V4(a)),
        None => match parsed_v6(t) {
            Some(a) => Some(IpAddr::V6(a)),
            None => None,
        },
    }
}

/// The socket address that the text writes: an address of 32 bits, or one of 128 bits in
/// square brackets, then a colon and the port.
pub open spec fn parsed_socket(t: Seq<u8>) -> Option<SocketAddr> {
    let k = find_last(t, COLON, t.len() as int);
    if k < 0 {
        None
    } else {
        match number(t.skip(k + 1), 10, 0xffff) {
            None => None,
            Some(port) => match parsed_v4(t.take(k)) {
                Some(a) => Some(SocketAddr { ip: IpAddr::V4(a), port: port as u16 }),
                None => if k >= 2 && t[0] == OPEN && t[k - 1] == CLOSE {
                    match parsed_v6(t.subrange(1, k - 1)) {
                        Some(a) => Some(SocketAddr { ip: IpAddr::V6(a), port: port as u16 }),
                        None => None,
                    }
                } else {
                    None
                },
            },
        }
    }
}

/// The value of digits does not shrink as more follow.
proof fn lemma_value_grows(t: Seq<u8>, base: int, n: int)
    requires
        base >= 1,
        0 <= n <= t.len(),
        forall|i: int| 0 <= i < t.len() ==> 0 <= digit(#[trigger] t[i]),
    ensures
        0 <= value_of(t.take(n), base) <= value_of(t, base),
    decreases t.len(),
{
    if t.len() == n {
        assert(t.take(n) =~= t);
        if n > 0 {
            lemma_value_grows(t.drop_last(), base, n - 1);
            assert(t.drop_last().take(n - 1) =~= t.drop_last());
            let v = value_of(t.drop_last(), base);
            assert(v * base >= 0) by (nonlinear_arith)
                requires
                    v >= 0,
                    base >= 1,
            ;
        }
    } else {
        lemma_value_grows(t.drop_last(), base, n);
        assert(t.drop_last().take(n) =~= t.take(n));
        let v = value_of(t.drop_last(), base);
        assert(v * base >= v) by (nonlinear_arith)
            requires
                v >= 0,
                base >= 1,
        ;
    }
}

fn digit_of(b: u8) -> (r: u32)
    ensures
        r == digit(b),
{
    if 48 <= b && b <= 57 {
        (b - 48) as u32
    } else if 97 <= b && b <= 102 {
        (b - 87) as u32
    } else if 65 <= b && b <= 70 {
        (b - 55) as u32
    } else {
        99
    }
}

/// The number that the text writes, if it is one or more digits and does not exceed the
/// limit.
pub fn parse_number(t: &[u8], base: u32, limit: u64) -> (r: Option<u64>)
    requires
        1 <= base <= 16,
    ensures
        match r {
            Some(n) => number(t@, base as int, limit as int) == Some(n as int),
            None => number(t@, base as int, limit as int) is None,
        },
{
    if t.len() == 0 {
        return None;
    }
    let mut value: u128 = 0;
    let mut i: usize = 0;
    while i < t.len()
        invariant
            i <= t@.len(),
            1 <= base <= 16,
            value <= limit,
            all_digits(t@.take(i as int), base as int),
            value == value_of(t@.take(i as int), base as int),
        decreases t.len() - i,
    {
        let d: u32 = digit_of(t[i]);
        if d >= base {
            assert(!all_digits(t@, base as int)) by {
                assert(digit(t@[i as int]) >= base);
            }
            return None;
        }
        let ghost before = t@.take(i as int);
        let ghost after = t@.take(i + 1);
        proof {
            assert(after.drop_last() =~= before);
            assert(after.last() == t@[i as int]);
            assert(value * base <= 0xffff_ffff_ffff_ffff * 16) by (nonlinear_arith)
                requires
                    value <= 0xffff_ffff_ffff_ffff,
                    base <= 16,
            ;
        }
        value = value * (base as u128) + d as u128;
        if value > limit as u128 {
            proof {
                lemma_value_grows(t@, base as int, i + 1);
            }
            return None;
        }
        proof {
            assert forall|k: int| 0 <= k < after.len() implies digit(#[trigger] after[k]) < base by {
                if k < i {
                    assert(before[k] == after[k]);
                }
            }
        }
        i = i + 1;
    }
    assert(t@.take(i as int) =~= t@);
    Some(value as u64)
}

/// The number that the text writes in decimal, with or without a plus sign.
pub fn parse_unsigned(t: &[u8], limit: u64) -> (r: Option<u64>)
    ensures
        match r {
            Some(n) => unsigned(t@, limit as int) == Some(n as int),
            None => unsigned(t@, limit as int) is None,
        },
{
    if t.len() > 0 && t[0] == PLUS {
        assert(t@.skip(1) =~= t@.subrange(1, t@.len() as int));
        parse_number(slice_subrange(t, 1, t.len()), 10, limit)
    } else {
        parse_number(t, 10, limit)
    }
}

/// The index of the first such character from the given index on, or the end.
pub fn find_from(t: &[u8], b: u8, from: usize) -> (r: usize)
    requires
        from <= t@.len(),
    ensures
        r == find(t@, b, from as int),
        from <= r <= t@.len(),
{
    let mut i: usize = from;
    while i < t.len() && t[i] != b
        invariant
            from <= i <= t@.len(),
            find(t@, b, from as int) == find(t@, b, i as int),
        decreases t.len() - i,
    {
        i = i + 1;
    }
    i
}

/// The index of the last such character.
pub fn find_last_of(t: &[u8], b: u8) -> (r: Option<usize>)
    ensures
        match r {
            Some(k) => k == find_last(t@, b, t@.len() as int) && k < t@.len() && t@[k as int] == b,
            None => find_last(t@, b, t@.len() as int) < 0,
        },
{
    let mut end: usize = t.len();
    while end > 0
        invariant
            end <= t@.len(),
            find_last(t@, b, t@.len() as int) == find_last(t@, b, end as int),
        decreases end,
    {
        if t[end - 1] == b {
            return Some(end - 1);
        }
        end = end - 1;
    }
    None
}

fn find_gap_in(t: &[u8]) -> (r: usize)
    ensures
        r == find_gap(t@, 0),
        r <= t@.len(),
        r < t@.len() ==> r + 2 <= t@.len(),
{
    let mut i: usize = 0;
    while i < t.len()
        invariant
            i <= t@.len(),
            find_gap(t@, 0) == find_gap(t@, i as int),
        decreases t.len() - i,
    {
        if i == t.len() - 1 {
            return t.len();
        }
        if t[i] == COLON && t[i + 1] == COLON {
            return i;
        }
        i = i + 1;
    }
    i
}

fn octet(t: &[u8]) -> (r: Option<u8>)
    ensures
        match r {
            Some(n) => octet_value(t@) == Some(n as int),
            None => octet_value(t@) is None,
        },
{
    if t.len() > 3 || (t.len() > 1 && t[0] == 48) {
        None
    } else {
        match parse_number(t, 10, 255) {
            Some(n) => Some(n as u8),
            None => None,
        }
    }
}

fn group(t: &[u8]) -> (r: Option<u16>)
    ensures
        match r {
            Some(n) => group_value(t@) == Some(n as int),
            None => group_value(t@) is None,
        },
{
    if t.len() > 4 {
        None
    } else {
        match parse_number(t, 16, 0xffff) {
            Some(n) => Some(n as u16),
            None => None,
        }
    }
}

/// What the text has before and after the first such character.
proof fn lemma_pieces(t: Seq<u8>, sep: u8, from: int)
    requires
        0 <= from <= t.len(),
    ensures
        ({
            let k = find(t, sep, from);
            if k < t.len() {
                pieces(t, sep, from) == seq![t.subrange(from, k)] + pieces(t, sep, k + 1)
            } else {
                pieces(t, sep, from) == seq![t.subrange(from, t.len() as int)]
            }
        }),
        pieces(t, sep, from).len() >= 1,
    decreases t.len() - from,
{
    lemma_find(t, sep, from);
    let k = find(t, sep, from);
    if k < t.len() {
        lemma_pieces(t, sep, k + 1);
    }
}

/// The address of 32 bits that the text writes.
#[verifier::rlimit(30)]
pub fn parse_ipv4(t: &[u8]) -> (r: Option<Ipv4Addr>)
    ensures
        r == parsed_v4(t@),
{
    let ghost p = pieces(t@, DOT, 0);
    proof {
        lemma_pieces(t@, DOT, 0);
    }
    let a: usize = find_from(t, DOT, 0);
    if a == t.len() {
        return None;
    }
    proof {
        lemma_pieces(t@, DOT, a + 1);
    }
    let b: usize = find_from(t, DOT, a + 1);
    if b == t.len() {
        return None;
    }
    proof {
        lemma_pieces(t@, DOT, b + 1);
    }
    let c: usize = find_from(t, DOT, b + 1);
    if c == t.len() {
        return None;
    }
    proof {
        lemma_pieces(t@, DOT, c + 1);
    }
    let d: usize = find_from(t, DOT, c + 1);
    if d < t.len() {
        proof {
            lemma_pieces(t@, DOT, d + 1);
        }
        return None;
    }
    proof {
        assert(p.len() == 4);
        assert(p[0] == t@.subrange(0, a as int));
        assert(p[1] == t@.subrange(a + 1, b as int));
        assert(p[2] == t@.subrange(b + 1, c as int));
        assert(p[3] == t@.subrange(c + 1, t@.len() as int));
    }
    let first = octet(slice_subrange(t, 0, a));
    let second = octet(slice_subrange(t, a + 1, b));
    let third = octet(slice_subrange(t, b + 1, c));
    let fourth = octet(slice_subrange(t, c + 1, t.len()));
    match (first, second, third, fourth) {
        (Some(w), Some(x), Some(y), Some(z)) => Some(Ipv4Addr::new(w, x, y, z)),
        _ => None,
    }
}

/// The groups as numbers.
spec fn ints(g: Seq<u16>) -> Seq<int> {
    g.map_values(|x: u16| x as int)
}

/// The parts of an address of 128 bits that the text writes from the index on.
fn parse_groups_from(t: &[u8], from: usize, dotted: bool, out: &mut Vec<u16>) -> (r: bool)
    requires
        from <= t@.len(),
    ensures
        match groups(pieces(t@, COLON, from as int), dotted) {
            Some(g) => r && ints(final(out)@) =~= ints(old(out)@) + g,
            None => !r,
        },
    decreases t@.len() - from,
{
    let k: usize = find_from(t, COLON, from);
    let ghost p = pieces(t@, COLON, from as int);
    proof {
        lemma_pieces(t@, COLON, from as int);
    }
    let piece = slice_subrange(t, from, k);
    if k == t.len() {
        proof {
            reveal_with_fuel(groups, 2);
            assert(p =~= seq![piece@]);
            assert(p.skip(1) =~= Seq::empty());
        }
        if dotted {
            match parse_ipv4(piece) {
                Some(v4) => {
                    let ghost before = out@;
                    out.push((v4.bits / 0x1_0000) as u16);
                    out.push((v4.bits % 0x1_0000) as u16);
                    assert(ints(out@) =~= ints(before) + seq![
                        v4.bits as int / 0x1_0000,
                        v4.bits as int % 0x1_0000,
                    ]);
                    return true;
                },
                None => {},
            }
        }
        match group(piece) {
            Some(g) => {
                let ghost before = out@;
                out.push(g);
                assert(ints(out@) =~= ints(before) + (seq![g as int] + Seq::<int>::empty()));
                true
            },
            None => false,
        }
    } else {
        proof {
            lemma_pieces(t@, COLON, k + 1);
            assert(p[0] == piece@);
            assert(p.skip(1) =~= pieces(t@, COLON, k + 1));
            assert(p.len() >= 2);
        }
        match group(piece) {
            Some(g) => {
                let ghost before = out@;
                out.push(g);
                assert(ints(out@) =~= ints(before) + seq![g as int]);
                let ghost middle = ints(out@);
                let r = parse_groups_from(t, k + 1, dotted, out);
                proof {
                    if let Some(rest) = groups(pieces(t@, COLON, k + 1), dotted) {
                        assert(ints(before) + (seq![g as int] + rest) =~= middle + rest);
                    }
                }
                r
            },
            None => false,
        }
    }
}

fn parse_groups(t: &[u8], dotted: bool) -> (r: Option<Vec<u16>>)
    ensures
        match groups_of(t@, dotted) {
            Some(g) => r is Some && ints(r->0@) =~= g,
            None => r is None,
        },
{
    let mut out: Vec<u16> = Vec::new();
    if t.len() == 0 || parse_groups_from(t, 0, dotted, &mut out) {
        assert(ints(Seq::<u16>::empty()) + ints(out@) =~= ints(out@));
        Some(out)
    } else {
        None
    }
}

fn join_groups(g: &Vec<u16>) -> (r: u128)
    requires
        g@.len() == 8,
    ensures
        r == joined(ints(g@)),
{
    let mut value: u128 = 0;
    let mut i: usize = 0;
    let ghost mut bound: int = 1;
    while i < 8
        invariant
            i <= 8,
            g@.len() == 8,
            value == joined(ints(g@).take(i as int)),
            value < bound,
            i == 0 ==> bound == 1,
            i == 1 ==> bound == 0x1_0000,
            i == 2 ==> bound == 0x1_0000_0000,
            i == 3 ==> bound == 0x1_0000_0000_0000,
            i == 4 ==> bound == 0x1_0000_0000_0000_0000,
            i == 5 ==> bound == 0x1_0000_0000_0000_0000_0000,
            i == 6 ==> bound == 0x1_0000_0000_0000_0000_0000_0000,
            i == 7 ==> bound == 0x1_0000_0000_0000_0000_0000_0000_0000,
            i == 8 ==> bound == 0x1_0000_0000_0000_0000_0000_0000_0000 * 0x1_0000,
        decreases 8 - i,
    {
        let ghost after = ints(g@).take(i + 1);
        proof {
            assert(after.drop_last() =~= ints(g@).take(i as int));
            assert(after.last() == g@[i as int]);
            bound = bound * 0x1_0000;
        }
        value = value * 0x1_0000 + g[i] as u128;
        i = i + 1;
    }
    assert(ints(g@).take(8) =~= ints(g@));
    value
}

/// The address of 128 bits that the text writes.
pub fn parse_ipv6(t: &[u8]) -> (r: Option<Ipv6Addr>)
    ensures
        r == parsed_v6(t@),
{
    let k: usize = find_gap_in(t);
    if k < t.len() {
        proof {
            assert(t@.take(k as int) =~= t@.subrange(0, k as int));
            assert(t@.skip(k + 2) =~= t@.subrange(k + 2, t@.len() as int));
        }
        let head = parse_groups(slice_subrange(t, 0, k), false);
        let tail = parse_groups(slice_subrange(t, k + 2, t.len()), true);
        match (head, tail) {
            (Some(head), Some(tail)) => {
                if head.len() > 7 || tail.len() > 7 - head.len() {
                    return None;
                }
                let mut all: Vec<u16> = Vec::new();
                let mut i: usize = 0;
                while i < 8
                    invariant
                        i <= 8,
                        all@.len() == i,
                        head@.len() + tail@.len() <= 7,
                        forall|j: int|
                            0 <= j < i ==> #[trigger] all@[j] == (if j < head@.len() {
                                head@[j]
                            } else if j < 8 - tail@.len() {
                                0u16
                            } else {
                                tail@[j - (8 - tail@.len())]
                            }),
                    decreases 8 - i,
                {
                    if i < head.len() {
                        all.push(head[i]);
                    } else if i < 8 - tail.len() {
                        all.push(0);
                    } else {
                        all.push(tail[i - (8 - tail.len())]);
                    }
                    i = i + 1;
                }
                assert(ints(all@) =~= ints(head@) + zeros(8 - head@.len() - tail@.len()) + ints(
                    tail@,
                ));
                Some(Ipv6Addr { bits: join_groups(&all) })
            },
            _ => None,
        }
    } else {
        match parse_groups(t, true) {
            Some(g) => if g.len() == 8 {
                Some(Ipv6Addr { bits: join_groups(&g) })
            } else {
                None
            },
            None => None,
        }
    }
}

/// The address that the text writes.
pub fn parse_ip(t: &[u8]) -> (r: Option<IpAddr>)
    ensures
        r == parsed_ip(t@),
{
    match parse_ipv4(t) {
        Some(a) => Some(IpAddr::V4(a)),
        None => match parse_ipv6(t) {
            Some(a) => Some(IpAddr::V6(a)),
            None => None,
        },
    }
}

/// The socket address that the text writes.
pub fn parse_socket_addr(t: &[u8]) -> (r: Option<SocketAddr>)
    ensures
        r == parsed_socket(t@),
{
    let len: usize = t.len();
    match find_last_of(t, COLON) {
        None => None,
        Some(k) => {
            proof {
                assert(t@.take(k as int) =~= t@.subrange(0, k as int));
                assert(t@.skip(k + 1) =~= t@.subrange(k + 1, t@.len() as int));
            }
            match parse_number(slice_subrange(t, k + 1, len), 10, 0xffff) {
                None => None,
                Some(port) => match parse_ipv4(slice_subrange(t, 0, k)) {
                    Some(a) => Some(SocketAddr { ip: IpAddr::V4(a), port: port as u16 }),
                    None => if k >= 2 && t[0] == OPEN && t[k - 1] == CLOSE {
                        match parse_ipv6(slice_subrange(t, 1, k - 1)) {
                            Some(a) => Some(SocketAddr { ip: IpAddr::V6(a), port: port as u16 }),
                            None => None,
                        }
                    } else {
                        None
                    },
                },
            }
        },
    }
}

/// The digit, in lower case.
pub open spec fn digit_char(d: int) -> u8 {
    if d < 10 {
        (48 + d) as u8
    } else {
        (87 + d) as u8
    }
}

/// The number in the base, without leading zeros.
pub open spec fn numeral(n: int, base: int) -> Seq<u8>
    decreases n,
    via numeral_ends
{
    if base < 2 || n < base {
        seq![digit_char(n)]
    } else {
        numeral(n / base, base).push(digit_char(n % base))
    }
}

#[via_fn]
proof fn numeral_ends(n: int, base: int) {
    if base >= 2 && n >= base {
        assert(0 <= n / base < n) by (nonlinear_arith)
            requires
                base >= 2,
                n >= base,
        ;
    }
}

/// An address of 32 bits as text: its octets in decimal, separated by dots.
pub open spec fn text_v4(a: Ipv4Addr) -> Seq<u8> {
    numeral(a.octet(0), 10) + seq![DOT] + numeral(a.octet(1), 10) + seq![DOT] + numeral(
        a.octet(2),
        10,
    ) + seq![DOT] + numeral(a.octet(3), 10)
}

/// The group of 16 bits at the index, counted from the highest.
pub open spec fn segment(a: Ipv6Addr, i: int) -> int {
    if i == 0 {
        a.bits as int / 0x1_0000_0000_0000_0000_0000_0000_0000
    } else if i == 1 {
        a.bits as int / 0x1_0000_0000_0000_0000_0000_0000 % 0x1_0000
    } else if i == 2 {
        a.bits as int / 0x1_0000_0000_0000_0000_0000 % 0x1_0000
    } else if i == 3 {
        a.bits as int / 0x1_0000_0000_0000_0000 % 0x1_0000
    } else if i == 4 {
        a.bits as int / 0x1_0000_0000_0000 % 0x1_0000
    } else if i == 5 {
        a.bits as int / 0x1_0000_0000 % 0x1_0000
    } else if i == 6 {
        a.bits as int / 0x1_0000 % 0x1_0000
    } else {
        a.bits as int % 0x1_0000
    }
}

/// The groups of 16 bits, from the highest on.
pub open spec fn segments(a: Ipv6Addr) -> Seq<int> {
    Seq::new(8, |i: int| segment(a, i))
}

/// How many of the groups are zero in a row from the index on.
pub open spec fn run_len(g: Seq<int>, i: int) -> int
    decreases g.len() - i,
{
    if 0 <= i < g.len() && g[i] == 0 {
        1 + run_len(g, i + 1)
    } else {
        0
    }
}

/// The first index below `n` from which most groups are zero in a row.
pub open spec fn longest_run(g: Seq<int>, n: int) -> int
    decreases n,
{
    if n <= 1 {
        0
    } else {
        let best = longest_run(g, n - 1);
        if run_len(g, n - 1) > run_len(g, best) {
            n - 1
        } else {
            best
        }
    }
}

/// The groups from one index to another in hexadecimal, separated by colons.
pub open spec fn text_groups(g: Seq<int>, from: int, to: int) -> Seq<u8>
    decreases to - from,
{
    if from >= to {
        Seq::empty()
    } else if from + 1 == to {
        numeral(g[from], 16)
    } else {
        text_groups(g, from, to - 1) + seq![COLON] + numeral(g[to - 1], 16)
    }
}

/// An address of 128 bits as text: its groups in hexadecimal, separated by colons, where
/// two colons stand for the first longest run of two or more groups that are zero. One
/// that holds an address of 32 bits ends with that address.
pub open spec fn text_v6(a: Ipv6Addr) -> Seq<u8> {
    let g = segments(a);
    let start = longest_run(g, 8);
    let len = run_len(g, start);
    if a.bits as int / 0x1_0000_0000 == 0xffff {
        seq![COLON, COLON, 102u8, 102u8, 102u8, 102u8, COLON] + text_v4(
            Ipv4Addr { bits: (a.bits % 0x1_0000_0000) as u32 },
        )
    } else if len > 1 {
        text_groups(g, 0, start) + seq![COLON, COLON] + text_groups(g, start + len, 8)
    } else {
        text_groups(g, 0, 8)
    }
}

/// An address as text.
pub open spec fn text_ip(a: IpAddr) -> Seq<u8> {
    match a {
        IpAddr::V4(a) => text_v4(a),
        IpAddr::V6(a) => text_v6(a),
    }
}

/// A socket address as text: the address, that of 128 bits in square brackets, then a
/// colon and the port.
pub open spec fn text_socket(a: SocketAddr) -> Seq<u8> {
    match a.ip {
        IpAddr::V4(ip) => text_v4(ip) + seq![COLON] + numeral(a.port as int, 10),
        IpAddr::V6(ip) => seq![OPEN] + text_v6(ip) + seq![CLOSE, COLON] + numeral(a.port as int, 10),
    }
}

/// Appends the number in the base.
pub fn push_number(out: &mut Vec<u8>, n: u32, base: u32)
    requires
        2 <= base <= 16,
    ensures
        final(out)@ == old(out)@ + numeral(n as int, base as int),
    decreases n,
{
    if n >= base {
        let ghost before = out@;
        assert(n / base < n) by (nonlinear_arith)
            requires
                base >= 2,
                n >= base,
        ;
        push_number(out, n / base, base);
        let d: u32 = n % base;
        let ghost middle = out@;
        if d < 10 {
            out.push((48 + d) as u8);
        } else {
            out.push((87 + d) as u8);
        }
        assert(out@ =~= before + numeral(n as int, base as int));
    } else {
        let ghost before = out@;
        if n < 10 {
            out.push((48 + n) as u8);
        } else {
            out.push((87 + n) as u8);
        }
        assert(out@ =~= before + numeral(n as int, base as int));
    }
}

/// Appends the address.
pub fn push_ipv4(out: &mut Vec<u8>, a: Ipv4Addr)
    ensures
        final(out)@ == old(out)@ + text_v4(a),
{
    let ghost before = out@;
    push_number(out, a.bits / 0x100_0000, 10);
    out.push(DOT);
    push_number(out, a.bits / 0x1_0000 % 0x100, 10);
    out.push(DOT);
    push_number(out, a.bits / 0x100 % 0x100, 10);
    out.push(DOT);
    push_number(out, a.bits % 0x100, 10);
    assert(out@ =~= before + text_v4(a));
}

fn segments_of(a: Ipv6Addr) -> (r: Vec<u16>)
    ensures
        ints(r@) =~= segments(a),
        r@.len() == 8,
{
    let mut r: Vec<u16> = Vec::new();
    r.push((a.bits / 0x1_0000_0000_0000_0000_0000_0000_0000) as u16);
    r.push((a.bits / 0x1_0000_0000_0000_0000_0000_0000 % 0x1_0000) as u16);
    r.push((a.bits / 0x1_0000_0000_0000_0000_0000 % 0x1_0000) as u16);
    r.push((a.bits / 0x1_0000_0000_0000_0000 % 0x1_0000) as u16);
    r.push((a.bits / 0x1_0000_0000_0000 % 0x1_0000) as u16);
    r.push((a.bits / 0x1_0000_0000 % 0x1_0000) as u16);
    r.push((a.bits / 0x1_0000 % 0x1_0000) as u16);
    r.push((a.bits % 0x1_0000) as u16);
    r
}

proof fn lemma_run_len(g: Seq<int>, i: int)
    requires
        0 <= i <= g.len(),
    ensures
        0 <= run_len(g, i) <= g.len() - i,
    decreases g.len() - i,
{
    if i < g.len() && g[i] == 0 {
        lemma_run_len(g, i + 1);
    }
}

fn run_len_of(g: &Vec<u16>, i: usize) -> (r: usize)
    requires
        i <= g@.len(),
    ensures
        r == run_len(ints(g@), i as int),
        r <= g@.len() - i,
{
    let mut k: usize = i;
    let ghost s = ints(g@);
    while k < g.len() && g[k] == 0
        invariant
            i <= k <= g@.len(),
            s == ints(g@),
            run_len(s, i as int) == (k - i) + run_len(s, k as int),
        decreases g.len() - k,
    {
        assert(s[k as int] == 0);
        k = k + 1;
    }
    if k < g.len() {
        assert(s[k as int] != 0);
    }
    k - i
}

fn push_groups(out: &mut Vec<u8>, g: &Vec<u16>, from: usize, to: usize)
    requires
        from <= g@.len(),
        to <= g@.len(),
    ensures
        final(out)@ == old(out)@ + text_groups(ints(g@), from as int, to as int),
{
    let ghost before = out@;
    let ghost s = ints(g@);
    let mut k: usize = from;
    while k < to
        invariant
            from <= k,
            k <= to || k == from,
            to <= g@.len(),
            s == ints(g@),
            out@ == before + text_groups(s, from as int, k as int),
        decreases to - k,
    {
        let ghost middle = out@;
        if k > from {
            out.push(COLON);
        }
        push_number(out, g[k] as u32, 16);
        assert(s[k as int] == g@[k as int]);
        k = k + 1;
        assert(out@ =~= before + text_groups(s, from as int, k as int));
    }
    if from >= to {
        assert(out@ =~= before + text_groups(s, from as int, to as int));
    }
}

/// Appends the address.
pub fn push_ipv6(out: &mut Vec<u8>, a: Ipv6Addr)
    ensures
        final(out)@ == old(out)@ + text_v6(a),
{
    let ghost before = out@;
    if a.bits / 0x1_0000_0000 == 0xffff {
        out.push(COLON);
        out.push(COLON);
        out.push(102);
        out.push(102);
        out.push(102);
        out.push(102);
        out.push(COLON);
        push_ipv4(out, Ipv4Addr { bits: (a.bits % 0x1_0000_0000) as u32 });
        assert(out@ =~= before + text_v6(a));
        return;
    }
    let g = segments_of(a);
    let ghost s = segments(a);
    let mut start: usize = 0;
    let mut len: usize = run_len_of(&g, 0);
    let mut n: usize = 1;
    while n < 8
        invariant
            1 <= n <= 8,
            ints(g@) == s,
            g@.len() == 8,
            s.len() == 8,
            start < 8,
            start + len <= 8,
            start == longest_run(s, n as int),
            len == run_len(s, start as int),
        decreases 8 - n,
    {
        let l: usize = run_len_of(&g, n);
        if l > len {
            start = n;
            len = l;
        }
        n = n + 1;
    }
    if len > 1 {
        push_groups(out, &g, 0, start);
        out.push(COLON);
        out.push(COLON);
        push_groups(out, &g, start + len, 8);
    } else {
        push_groups(out, &g, 0, 8);
    }
    assert(out@ =~= before + text_v6(a));
}

/// Appends the address.
pub fn push_ip(out: &mut Vec<u8>, a: IpAddr)
    ensures
        final(out)@ == old(out)@ + text_ip(a),
{
    match a {
        IpAddr::V4(a) => push_ipv4(out, a),
        IpAddr::V6(a) => push_ipv6(out, a),
    }
}

/// The address as text.
pub fn ip_text(a: IpAddr) -> (r: Vec<u8>)
    ensures
        r@ == text_ip(a),
{
    let mut out: Vec<u8> = Vec::new();
    push_ip(&mut out, a);
    assert(out@ =~= text_ip(a));
    out
}

/// The socket address as text.
pub fn socket_text(a: SocketAddr) -> (r: Vec<u8>)
    ensures
        r@ == text_socket(a),
{
    let mut out: Vec<u8> = Vec::new();
    match a.ip {
        IpAddr::V4(ip) => {
            push_ipv4(&mut out, ip);
        },
        IpAddr::V6(ip) => {
            out.push(OPEN);
            push_ipv6(&mut out, ip);
            out.push(CLOSE);
        },
    }
    out.push(COLON);
    push_number(&mut out, a.port as u32, 10);
    assert(out@ =~= text_socket(a));
    out
}

/// A number below 256 in decimal reads back.
proof fn lemma_octet_reads_back(n: int)
    requires
        0 <= n < 256,
    ensures
        octet_value(numeral(n, 10)) == Some(n),
        forall|i: int| 0 <= i < numeral(n, 10).len() ==> numeral(n, 10)[i] != DOT,
{
    reveal_with_fuel(numeral, 3);
    reveal_with_fuel(value_of, 4);
    let t = numeral(n, 10);
    if n < 10 {
        assert(t.drop_last() =~= Seq::empty());
    } else if n < 100 {
        assert(t =~= seq![digit_char(n / 10), digit_char(n % 10)]);
        assert(t.drop_last() =~= seq![digit_char(n / 10)]);
        assert(t.drop_last().drop_last() =~= Seq::empty());
    } else {
        assert(t =~= seq![digit_char(n / 100), digit_char(n / 10 % 10), digit_char(n % 10)]);
        assert(t.drop_last() =~= seq![digit_char(n / 100), digit_char(n / 10 % 10)]);
        assert(t.drop_last().drop_last() =~= seq![digit_char(n / 100)]);
        assert(t.drop_last().drop_last().drop_last() =~= Seq::empty());
    }
}

/// The part up to the separator is the first piece.
proof fn lemma_first_piece(t: Seq<u8>, sep: u8, from: int, k: int)
    requires
        0 <= from <= k < t.len(),
        t[k] == sep,
        forall|i: int| from <= i < k ==> t[i] != sep,
    ensures
        pieces(t, sep, from) == seq![t.subrange(from, k)] + pieces(t, sep, k + 1),
{
    lemma_find(t, sep, from);
    assert(find(t, sep, from) == k) by {
        let f = find(t, sep, from);
        if f < k {
            assert(t[f] == sep);
        }
        if f > k {
            assert(t[k] != sep);
        }
    }
}

/// Four parts with dots between them, and none within, are the pieces.
proof fn lemma_four_pieces(t: Seq<u8>, p0: Seq<u8>, p1: Seq<u8>, p2: Seq<u8>, p3: Seq<u8>)
    requires
        t == p0 + seq![DOT] + p1 + seq![DOT] + p2 + seq![DOT] + p3,
        forall|i: int| 0 <= i < p0.len() ==> p0[i] != DOT,
        forall|i: int| 0 <= i < p1.len() ==> p1[i] != DOT,
        forall|i: int| 0 <= i < p2.len() ==> p2[i] != DOT,
        forall|i: int| 0 <= i < p3.len() ==> p3[i] != DOT,
    ensures
        pieces(t, DOT, 0) == seq![p0, p1, p2, p3],
{
    let k0 = p0.len() as int;
    let k1 = k0 + 1 + p1.len();
    let k2 = k1 + 1 + p2.len();
    assert(t.subrange(0, k0) =~= p0);
    assert(t.subrange(k0 + 1, k1) =~= p1);
    assert(t.subrange(k1 + 1, k2) =~= p2);
    assert(t.subrange(k2 + 1, t.len() as int) =~= p3);
    assert forall|i: int| 0 <= i < k0 implies t[i] != DOT by {
        assert(t[i] == p0[i]);
    }
    assert forall|i: int| k0 + 1 <= i < k1 implies t[i] != DOT by {
        assert(t[i] == p1[i - k0 - 1]);
    }
    assert forall|i: int| k1 + 1 <= i < k2 implies t[i] != DOT by {
        assert(t[i] == p2[i - k1 - 1]);
    }
    assert forall|i: int| k2 + 1 <= i < t.len() implies t[i] != DOT by {
        assert(t[i] == p3[i - k2 - 1]);
    }
    lemma_first_piece(t, DOT, 0, k0);
    lemma_first_piece(t, DOT, k0 + 1, k1);
    lemma_first_piece(t, DOT, k1 + 1, k2);
    lemma_find(t, DOT, k2 + 1);
    assert(find(t, DOT, k2 + 1) == t.len());
    lemma_pieces(t, DOT, k2 + 1);
    assert(pieces(t, DOT, 0) =~= seq![p0, p1, p2, p3]);
}

/// An address of 32 bits is made of its octets.
proof fn lemma_octets(a: Ipv4Addr)
    ensures
        0 <= a.octet(0) < 256,
        0 <= a.octet(1) < 256,
        0 <= a.octet(2) < 256,
        0 <= a.octet(3) < 256,
        a.bits == a.octet(0) * 0x100_0000 + a.octet(1) * 0x1_0000 + a.octet(2) * 0x100 + a.octet(
            3,
        ),
{
}

/// An address of 32 bits that is written reads back as itself.
pub proof fn law_v4_text_reads_back(a: Ipv4Addr)
    ensures
        parsed_v4(text_v4(a)) == Some(a),
{
    lemma_octets(a);
    let (o0, o1, o2, o3) = (a.octet(0), a.octet(1), a.octet(2), a.octet(3));
    let t = text_v4(a);
    let p = pieces(t, DOT, 0);
    assert(p == seq![numeral(o0, 10), numeral(o1, 10), numeral(o2, 10), numeral(o3, 10)]
        && octet_value(p[0]) == Some(o0) && octet_value(p[1]) == Some(o1) && octet_value(p[2])
        == Some(o2) && octet_value(p[3]) == Some(o3)) by {
        lemma_octet_reads_back(o0);
        lemma_octet_reads_back(o1);
        lemma_octet_reads_back(o2);
        lemma_octet_reads_back(o3);
        lemma_four_pieces(t, numeral(o0, 10), numeral(o1, 10), numeral(o2, 10), numeral(o3, 10));
    }
    assert(parsed_v4(t)->0.bits == (o0 * 0x100_0000 + o1 * 0x1_0000 + o2 * 0x100 + o3) as u32);
}

} // verus!
