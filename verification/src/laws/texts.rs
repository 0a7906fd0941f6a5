//! Laws of texts: numbers and addresses that are written read back as what they were.
use crate::addr::{IpAddr, Ipv4Addr, Ipv6Addr, SocketAddr};
use crate::envelope;
use crate::envelope::{Packet, Syn};
use crate::text;
use vstd::arithmetic::div_mod;
use vstd::prelude::*;

verus! {

/// Whether none of the characters is the given one.
pub open spec fn lacks(t: Seq<u8>, b: u8) -> bool {
    forall|i: int| 0 <= i < t.len() ==> #[trigger] t[i] != b
}

/// The texts with the character between each and the next.
pub open spec fn glued(p: Seq<Seq<u8>>, sep: u8) -> Seq<u8>
    decreases p.len(),
{
    if p.len() == 0 {
        Seq::empty()
    } else if p.len() == 1 {
        p[0]
    } else {
        p[0] + seq![sep] + glued(p.skip(1), sep)
    }
}

/// A number that is written in a base up to sixteen reads back as itself, where the limit allows
/// it. Its text has only digits and letters up to `f`.
pub proof fn law_number_reads_back(n: int, base: int, limit: int)
    requires
        2 <= base <= 16,
        0 <= n <= limit,
    ensures
        text::number(text::numeral(n, base), base, limit) == Some(n),
        text::numeral(n, base).len() > 0,
        forall|i: int|
            0 <= i < text::numeral(n, base).len() ==> 48 <= #[trigger] text::numeral(n, base)[i]
                <= 57 || 97 <= text::numeral(n, base)[i] <= 102,
    decreases n,
{
    let t = text::numeral(n, base);
    if n < base {
        assert(t.drop_last() =~= Seq::empty());
        assert(text::value_of(t, base) == text::value_of(t.drop_last(), base) * base + text::digit(
            t.last(),
        ));
        assert(text::value_of(t.drop_last(), base) * base == 0) by (nonlinear_arith)
            requires
                text::value_of(t.drop_last(), base) == 0,
        ;
    } else {
        assert(0 <= n / base < n && 0 <= n % base < base && n == base * (n / base) + n % base)
            by (nonlinear_arith)
            requires
                base >= 2,
                n >= base,
        ;
        law_number_reads_back(n / base, base, limit);
        let before = text::numeral(n / base, base);
        assert(t.drop_last() =~= before);
        assert(t.last() == text::digit_char(n % base));
        assert(text::value_of(before, base) * base == base * (n / base)) by (nonlinear_arith)
            requires
                text::value_of(before, base) == n / base,
        ;
        assert forall|i: int| 0 <= i < t.len() implies 48 <= #[trigger] t[i] <= 57 || 97 <= t[i]
            <= 102 by {
            if i < before.len() {
                assert(t[i] == before[i]);
            }
        }
        assert forall|i: int| 0 <= i < t.len() implies text::digit(#[trigger] t[i]) < base by {
            if i < before.len() {
                assert(t[i] == before[i]);
            }
        }
    }
}

/// A text is a number only where it has some characters and all are digits; a further digit
/// counts its value and the rest times the base; and a number beyond the limit is none.
pub proof fn law_digits_of_a_number(t: Seq<u8>, b: u8, limit: int)
    ensures
        text::number(Seq::empty(), 10, limit) is None,
        !(48 <= b <= 57) ==> text::number(t.push(b), 10, limit) is None,
        48 <= b <= 57 && 0 <= limit ==> text::number(Seq::empty().push(b), 10, limit) == (if b - 48
            <= limit {
            Some(b - 48)
        } else {
            None
        }),
        48 <= b <= 57 && t.len() > 0 ==> (text::number(t.push(b), 10, limit) matches Some(v)
            ==> (v - (b - 48)) % 10 == 0 && v <= limit && text::number(t, 10, limit) == Some(
            (v - (b - 48)) / 10,
        )),
        text::number(t, 10, limit) matches Some(v) ==> 48 <= b <= 57 ==> text::number(
            t.push(b),
            10,
            limit,
        ) == (if v * 10 + (b - 48) <= limit {
            Some(v * 10 + (b - 48))
        } else {
            None
        }),
        t.len() > 0 && t[0] == 43u8 ==> text::unsigned(t, limit) == text::number(
            t.skip(1),
            10,
            limit,
        ),
        !(t.len() > 0 && t[0] == 43u8) ==> text::unsigned(t, limit) == text::number(t, 10, limit),
{
    let u = t.push(b);
    assert(u.drop_last() =~= t);
    assert(u[u.len() - 1] == b);
    let one = Seq::<u8>::empty().push(b);
    assert(one.drop_last() =~= Seq::empty());
    assert(one[0] == b);
    assert(text::value_of(one, 10) == text::value_of(one.drop_last(), 10) * 10 + text::digit(b));
    assert(text::value_of(u, 10) == text::value_of(t, 10) * 10 + text::digit(b));
    if text::all_digits(u, 10) {
        assert forall|i: int| 0 <= i < t.len() implies text::digit(#[trigger] t[i]) < 10 by {
            assert(u[i] == t[i]);
        }
        lemma_value_is_positive(t);
    }
    if text::all_digits(t, 10) && 48 <= b <= 57 {
        assert forall|i: int| 0 <= i < u.len() implies text::digit(#[trigger] u[i]) < 10 by {
            if i < t.len() {
                assert(u[i] == t[i]);
            }
        }
    }
}

proof fn lemma_value_is_positive(t: Seq<u8>)
    ensures
        text::value_of(t, 10) >= 0,
    decreases t.len(),
{
    if t.len() > 0 {
        lemma_value_is_positive(t.drop_last());
    }
}

/// The pieces of a text lack the character that separates them, and with it between them they
/// are the text.
pub proof fn law_pieces_make_the_text(t: Seq<u8>, sep: u8, from: int)
    requires
        0 <= from <= t.len(),
    ensures
        ({
            let p = text::pieces(t, sep, from);
            &&& p.len() > 0
            &&& forall|i: int| 0 <= i < p.len() ==> lacks(#[trigger] p[i], sep)
            &&& glued(p, sep) == t.subrange(from, t.len() as int)
        }),
    decreases t.len() - from,
{
    lemma_find(t, sep, from);
    let k = text::find(t, sep, from);
    let p = text::pieces(t, sep, from);
    let first = t.subrange(from, k);
    assert forall|i: int| 0 <= i < first.len() implies #[trigger] first[i] != sep by {
        assert(first[i] == t[from + i]);
    }
    if k < t.len() {
        law_pieces_make_the_text(t, sep, k + 1);
        let rest = text::pieces(t, sep, k + 1);
        assert(p == seq![first] + rest);
        assert(p.skip(1) =~= rest);
        assert(p[0] == first);
        assert(first + seq![sep] + t.subrange(k + 1, t.len() as int) =~= t.subrange(
            from,
            t.len() as int,
        ));
        assert forall|i: int| 0 <= i < p.len() implies lacks(#[trigger] p[i], sep) by {
            if i > 0 {
                assert(p[i] == rest[i - 1]);
            }
        }
    } else {
        assert(first =~= t.subrange(from, t.len() as int));
    }
}

proof fn lemma_find(t: Seq<u8>, b: u8, from: int)
    requires
        0 <= from <= t.len(),
    ensures
        from <= text::find(t, b, from) <= t.len(),
        text::find(t, b, from) < t.len() ==> t[text::find(t, b, from)] == b,
        forall|i: int| from <= i < text::find(t, b, from) ==> #[trigger] t[i] != b,
    decreases t.len() - from,
{
    if from < t.len() && t[from] != b {
        lemma_find(t, b, from + 1);
    }
}

proof fn lemma_one_piece(t: Seq<u8>, sep: u8)
    requires
        lacks(t, sep),
    ensures
        text::pieces(t, sep, 0) == seq![t],
{
    lemma_find(t, sep, 0);
    assert(t.subrange(0, t.len() as int) =~= t);
}

proof fn lemma_same_find(t: Seq<u8>, x: Seq<u8>, sep: u8, from: int)
    requires
        0 <= from <= t.len(),
    ensures
        text::find(t + seq![sep] + x, sep, from) == text::find(t, sep, from),
    decreases t.len() - from,
{
    let all = t + seq![sep] + x;
    if from < t.len() {
        assert(all[from] == t[from]);
        if t[from] != sep {
            lemma_same_find(t, x, sep, from + 1);
        }
    } else {
        assert(all[from] == sep);
    }
}

/// A further piece behind the character is a further one of the pieces.
proof fn lemma_piece_more(t: Seq<u8>, x: Seq<u8>, sep: u8, from: int)
    requires
        0 <= from <= t.len(),
        lacks(x, sep),
    ensures
        text::pieces(t + seq![sep] + x, sep, from) == text::pieces(t, sep, from).push(x),
    decreases t.len() - from,
{
    let all = t + seq![sep] + x;
    lemma_same_find(t, x, sep, from);
    lemma_find(t, sep, from);
    let k = text::find(t, sep, from);
    assert(all.subrange(from, k) =~= t.subrange(from, k));
    if k < t.len() {
        lemma_piece_more(t, x, sep, k + 1);
        assert(seq![t.subrange(from, k)] + text::pieces(t, sep, k + 1).push(x) =~= (
        seq![t.subrange(from, k)] + text::pieces(t, sep, k + 1)).push(x));
    } else {
        let n = t.len() as int;
        lemma_find(all, sep, n + 1);
        let f = text::find(all, sep, n + 1);
        if f < all.len() {
            assert(all[f] == x[f - n - 1]);
        }
        assert(all.subrange(n + 1, all.len() as int) =~= x);
        assert(text::pieces(all, sep, n + 1) =~= seq![x]);
        assert(text::pieces(all, sep, from) =~= seq![t.subrange(from, n)].push(x));
    }
}

proof fn lemma_octet(p: Seq<u8>)
    requires
        text::octet_value(p) is Some,
    ensures
        p == text::numeral(text::octet_value(p)->0, 10),
        0 <= text::octet_value(p)->0 < 256,
{
    reveal_with_fuel(text::numeral, 3);
    reveal_with_fuel(text::value_of, 4);
    assert(text::digit(p[0]) < 10);
    if p.len() == 1 {
        assert(p.drop_last() =~= Seq::empty());
        assert(p =~= text::numeral(text::octet_value(p)->0, 10));
    } else if p.len() == 2 {
        assert(text::digit(p[1]) < 10);
        assert(p.drop_last().drop_last() =~= Seq::empty());
        assert(p.drop_last().last() == p[0]);
        assert(p =~= text::numeral(text::octet_value(p)->0, 10));
    } else {
        assert(text::digit(p[1]) < 10);
        assert(text::digit(p[2]) < 10);
        assert(p.drop_last().drop_last().drop_last() =~= Seq::empty());
        assert(p.drop_last().last() == p[1]);
        assert(p.drop_last().drop_last().last() == p[0]);
        let n = text::octet_value(p)->0;
        assert(n == ((p[0] - 48) * 10 + (p[1] - 48)) * 10 + (p[2] - 48));
        assert(n / 10 == (p[0] - 48) * 10 + (p[1] - 48));
        assert(n / 10 / 10 == p[0] - 48);
        assert(p =~= text::numeral(n, 10));
    }
}

/// A text is an address of 32 bits just where it is the one that the address is written as.
pub proof fn law_text_of_32_bits_is_unique(t: Seq<u8>, a: Ipv4Addr)
    ensures
        text::parsed_v4(t) == Some(a) <==> t == text::text_v4(a),
{
    text::law_v4_text_reads_back(a);
    if text::parsed_v4(t) == Some(a) {
        law_pieces_make_the_text(t, 46u8, 0);
        let p = text::pieces(t, 46u8, 0);
        lemma_octet(p[0]);
        lemma_octet(p[1]);
        lemma_octet(p[2]);
        lemma_octet(p[3]);
        lemma_glue_four(p);
        assert(t.subrange(0, t.len() as int) =~= t);
        lemma_octets_of(
            a,
            text::octet_value(p[0])->0,
            text::octet_value(p[1])->0,
            text::octet_value(p[2])->0,
            text::octet_value(p[3])->0,
        );
    }
}

proof fn lemma_glue_four(p: Seq<Seq<u8>>)
    requires
        p.len() == 4,
    ensures
        glued(p, 46u8) == p[0] + seq![46u8] + p[1] + seq![46u8] + p[2] + seq![46u8] + p[3],
{
    reveal_with_fuel(glued, 4);
    assert(p.skip(1).skip(1) =~= p.skip(2));
    assert(p.skip(2).skip(1) =~= p.skip(3));
    assert(glued(p.skip(3), 46u8) == p[3]);
    assert(glued(p.skip(2), 46u8) == p[2] + seq![46u8] + p[3]);
    assert(glued(p.skip(1), 46u8) == p[1] + seq![46u8] + (p[2] + seq![46u8] + p[3]));
    assert(glued(p, 46u8) =~= p[0] + seq![46u8] + p[1] + seq![46u8] + p[2] + seq![46u8] + p[3]);
}

proof fn lemma_octets_of(a: Ipv4Addr, x: int, y: int, z: int, w: int)
    requires
        0 <= x < 256 && 0 <= y < 256 && 0 <= z < 256 && 0 <= w < 256,
        a.bits == (x * 0x100_0000 + y * 0x1_0000 + z * 0x100 + w) as u32,
    ensures
        a.octet(0) == x && a.octet(1) == y && a.octet(2) == z && a.octet(3) == w,
{
    let b = a.bits as int;
    let high = x * 0x100 + y;
    let top = high * 0x100 + z;
    assert(b == top * 0x100 + w);
    assert(b == high * 0x1_0000 + (z * 0x100 + w));
    assert(b == x * 0x100_0000 + (y * 0x1_0000 + z * 0x100 + w));
    div_mod::lemma_fundamental_div_mod_converse(b, 0x100, top, w);
    div_mod::lemma_fundamental_div_mod_converse(top, 0x100, high, z);
    div_mod::lemma_fundamental_div_mod_converse(b, 0x1_0000, high, z * 0x100 + w);
    div_mod::lemma_fundamental_div_mod_converse(high, 0x100, x, y);
    div_mod::lemma_fundamental_div_mod_converse(b, 0x100_0000, x, y * 0x1_0000 + z * 0x100 + w);
}

/// What a message is called in a trace: the protocol, and what it is or its bytes.
pub proof fn law_text_of_a_message(syn: Syn, seq: u64, data: Seq<u8>)
    ensures
        envelope::packet_text(Packet::Syn(syn)) == seq![84u8, 67, 80, 32, 83, 89, 78],
        envelope::packet_text(Packet::Fin(seq)) == seq![84u8, 67, 80, 32, 70, 73, 78],
        envelope::packet_text(Packet::Rst) == seq![84u8, 67, 80, 32, 82, 83, 84],
        envelope::packet_text(Packet::Data(seq, data)) == seq![84u8, 67, 80, 32, 91]
            + envelope::hex_list(data, data.len() as int) + seq![93u8],
        envelope::packet_text(Packet::Datagram(data)) == seq![85u8, 68, 80, 32, 91]
            + envelope::hex_list(data, data.len() as int) + seq![93u8],
{
    assert(envelope::packet_text(Packet::Syn(syn)) =~= seq![84u8, 67, 80, 32, 83, 89, 78]);
    assert(envelope::packet_text(Packet::Fin(seq)) =~= seq![84u8, 67, 80, 32, 70, 73, 78]);
    assert(envelope::packet_text(Packet::Rst) =~= seq![84u8, 67, 80, 32, 82, 83, 84]);
    assert(envelope::tcp_name() + seq![32u8, 91u8] =~= seq![84u8, 67, 80, 32, 91]);
    assert(envelope::udp_name() + seq![32u8, 91u8] =~= seq![85u8, 68, 80, 32, 91]);
}

/// Bytes are written in their order, a comma and a space between them. A byte is `0x` and its
/// value in hexadecimal digits, in upper case and without a leading zero.
pub proof fn law_text_of_bytes(data: Seq<u8>, b: u8)
    ensures
        envelope::hex_list(Seq::empty(), 0).len() == 0,
        ({
            let n = data.len() as int;
            let x = envelope::hex_byte(b);
            let all = data.push(b);
            &&& n == 0 ==> envelope::hex_list(all, 1) == x
            &&& n > 0 ==> envelope::hex_list(all, n + 1) == envelope::hex_list(data, n) + seq![
                44u8,
                32u8,
            ] + x
            &&& x.len() == (if b < 16 {
                3nat
            } else {
                4nat
            })
            &&& x[0] == 48 && x[1] == 120
            &&& text::value_of(x.subrange(2, x.len() as int), 16) == b
            &&& forall|i: int|
                2 <= i < x.len() ==> 48 <= #[trigger] x[i] <= 57 || 65 <= x[i] <= 70
        }),
{
    let n = data.len() as int;
    let all = data.push(b);
    lemma_hex_list(data, all, n);
    let x = envelope::hex_byte(b);
    let digits = x.subrange(2, x.len() as int);
    reveal_with_fuel(text::value_of, 3);
    if b < 16 {
        assert(digits =~= seq![envelope::upper_digit(b as int)]);
        assert(digits.drop_last() =~= Seq::empty());
    } else {
        assert(digits =~= seq![
            envelope::upper_digit(b as int / 16),
            envelope::upper_digit(b as int % 16),
        ]);
        assert(digits.drop_last() =~= seq![envelope::upper_digit(b as int / 16)]);
        assert(digits.drop_last().drop_last() =~= Seq::empty());
    }
}

proof fn lemma_hex_list(data: Seq<u8>, all: Seq<u8>, n: int)
    requires
        n <= data.len() <= all.len(),
        forall|i: int| 0 <= i < data.len() ==> #[trigger] all[i] == data[i],
    ensures
        envelope::hex_list(all, n) == envelope::hex_list(data, n),
    decreases n,
{
    if n > 1 {
        lemma_hex_list(data, all, n - 1);
        assert(all[n - 1] == data[n - 1]);
    } else if n == 1 {
        assert(all[0] == data[0]);
    }
}

/// The numbers in hexadecimal.
spec fn numerals(h: Seq<int>) -> Seq<Seq<u8>> {
    Seq::new(h.len(), |i: int| text::numeral(h[i], 16))
}

/// Whether each number has 16 bits.
spec fn are_groups(h: Seq<int>) -> bool {
    forall|i: int| 0 <= i < h.len() ==> 0 <= #[trigger] h[i] < 0x1_0000
}

proof fn lemma_numeral(n: int)
    requires
        0 <= n < 0x1_0000,
    ensures
        ({
            let t = text::numeral(n, 16);
            &&& text::group_value(t) == Some(n)
            &&& t.len() > 0
            &&& lacks(t, 58u8) && lacks(t, 46u8)
            &&& text::parsed_v4(t) is None
        }),
{
    let t = text::numeral(n, 16);
    law_number_reads_back(n, 16, 0xffff);
    reveal_with_fuel(text::numeral, 4);
    assert(t.len() <= 4);
    assert(lacks(t, 46u8));
    lemma_one_piece(t, 46u8);
}

proof fn lemma_groups(p: Seq<Seq<u8>>, h: Seq<int>, dotted: bool)
    requires
        p == numerals(h),
        are_groups(h),
    ensures
        text::groups(p, dotted) == Some(h),
    decreases p.len(),
{
    if p.len() > 0 {
        lemma_numeral(h[0]);
        assert(p[0] == text::numeral(h[0], 16));
        let rest = h.skip(1);
        assert(p.skip(1) =~= numerals(rest));
        assert forall|i: int| 0 <= i < rest.len() implies 0 <= #[trigger] rest[i] < 0x1_0000 by {
            assert(rest[i] == h[i + 1]);
        }
        lemma_groups(p.skip(1), rest, dotted);
        assert(seq![h[0]] + rest =~= h);
    } else {
        assert(h =~= Seq::empty());
    }
}

/// Whether two colons stand nowhere in a row, and neither end is a colon.
spec fn is_tight(t: Seq<u8>) -> bool {
    &&& forall|i: int| 0 <= i && i + 1 < t.len() ==> !(#[trigger] t[i] == 58u8 && t[i + 1] == 58u8)
    &&& t.len() > 0 ==> t[0] != 58u8 && t[t.len() - 1] != 58u8
}

proof fn lemma_text_groups(g: Seq<int>, from: int, to: int)
    requires
        0 <= from <= to <= g.len(),
        are_groups(g),
    ensures
        ({
            let t = text::text_groups(g, from, to);
            &&& is_tight(t)
            &&& from == to <==> t.len() == 0
            &&& from < to ==> text::pieces(t, 58u8, 0) == numerals(g.subrange(from, to))
            &&& to - from > 1 ==> !lacks(t, 58u8)
        }),
    decreases to - from,
{
    let t = text::text_groups(g, from, to);
    if from + 1 == to {
        lemma_numeral(g[from]);
        lemma_one_piece(t, 58u8);
        assert(seq![t] =~= numerals(g.subrange(from, to)));
        assert(t[0] != 58u8 && t[t.len() - 1] != 58u8);
        assert forall|i: int| 0 <= i && i + 1 < t.len() implies !(#[trigger] t[i] == 58u8 && t[i
            + 1] == 58u8) by {
            assert(t[i] != 58u8);
        }
    } else if from < to {
        lemma_text_groups(g, from, to - 1);
        let before = text::text_groups(g, from, to - 1);
        let x = text::numeral(g[to - 1], 16);
        lemma_numeral(g[to - 1]);
        assert(t == before + seq![58u8] + x);
        lemma_piece_more(before, x, 58u8, 0);
        assert(numerals(g.subrange(from, to - 1)).push(x) =~= numerals(g.subrange(from, to)));
        let n = before.len() as int;
        assert(x[0] != 58u8 && x[x.len() - 1] != 58u8);
        assert(t[t.len() - 1] == x[x.len() - 1]);
        assert(t[0] == before[0]);
        assert(t[n] == 58u8);
        assert(t[n - 1] == before[n - 1]);
        assert(t[n + 1] == x[0]);
        assert forall|i: int| 0 <= i && i + 1 < t.len() implies !(#[trigger] t[i] == 58u8 && t[i
            + 1] == 58u8) by {
            if i + 1 < n {
                assert(t[i] == before[i] && t[i + 1] == before[i + 1]);
            } else if i > n {
                assert(t[i] == x[i - n - 1]);
            }
        }
    }
}

proof fn lemma_no_gap(t: Seq<u8>, from: int)
    requires
        0 <= from <= t.len(),
        is_tight(t),
    ensures
        text::find_gap(t, from) == t.len(),
    decreases t.len() - from,
{
    if from + 1 < t.len() {
        assert(!(t[from] == 58u8 && t[from + 1] == 58u8));
        lemma_no_gap(t, from + 1);
    }
}

proof fn lemma_gap(head: Seq<u8>, tail: Seq<u8>, from: int)
    requires
        0 <= from <= head.len(),
        is_tight(head),
    ensures
        text::find_gap(head + seq![58u8, 58u8] + tail, from) == head.len(),
    decreases head.len() - from,
{
    let t = head + seq![58u8, 58u8] + tail;
    let n = head.len() as int;
    assert(t[n] == 58u8 && t[n + 1] == 58u8);
    if from < n {
        assert(t[from] == head[from]);
        if from + 1 < n {
            assert(t[from + 1] == head[from + 1]);
            assert(!(head[from] == 58u8 && head[from + 1] == 58u8));
        } else {
            assert(head[n - 1] != 58u8);
        }
        lemma_gap(head, tail, from + 1);
    }
}

proof fn lemma_groups_of(g: Seq<int>, from: int, to: int, dotted: bool)
    requires
        0 <= from <= to <= g.len(),
        are_groups(g),
    ensures
        text::groups_of(text::text_groups(g, from, to), dotted) == Some(g.subrange(from, to)),
{
    lemma_text_groups(g, from, to);
    let h = g.subrange(from, to);
    if from < to {
        assert forall|i: int| 0 <= i < h.len() implies 0 <= #[trigger] h[i] < 0x1_0000 by {
            assert(h[i] == g[from + i]);
        }
        lemma_groups(numerals(h), h, dotted);
    } else {
        assert(h =~= Seq::empty());
    }
}

proof fn lemma_run(g: Seq<int>, i: int)
    requires
        0 <= i <= g.len(),
    ensures
        0 <= text::run_len(g, i) <= g.len() - i,
        forall|k: int| i <= k < i + text::run_len(g, i) ==> #[trigger] g[k] == 0,
    decreases g.len() - i,
{
    if i < g.len() && g[i] == 0 {
        lemma_run(g, i + 1);
    }
}

proof fn lemma_longest(g: Seq<int>, n: int)
    requires
        1 <= n,
    ensures
        0 <= text::longest_run(g, n) < n,
    decreases n,
{
    if n > 1 {
        lemma_longest(g, n - 1);
    }
}

proof fn lemma_segments(a: Ipv6Addr)
    ensures
        are_groups(text::segments(a)),
        text::joined(text::segments(a)) == a.bits,
{
    let b = a.bits as int;
    let g = text::segments(a);
    let q1 = b / 0x1_0000;
    let q2 = q1 / 0x1_0000;
    let q3 = q2 / 0x1_0000;
    let q4 = q3 / 0x1_0000;
    let q5 = q4 / 0x1_0000;
    let q6 = q5 / 0x1_0000;
    let q7 = q6 / 0x1_0000;
    div_mod::lemma_div_denominator(b, 0x1_0000, 0x1_0000);
    div_mod::lemma_div_denominator(b, 0x1_0000_0000, 0x1_0000);
    div_mod::lemma_div_denominator(b, 0x1_0000_0000_0000, 0x1_0000);
    div_mod::lemma_div_denominator(b, 0x1_0000_0000_0000_0000, 0x1_0000);
    div_mod::lemma_div_denominator(b, 0x1_0000_0000_0000_0000_0000, 0x1_0000);
    div_mod::lemma_div_denominator(b, 0x1_0000_0000_0000_0000_0000_0000, 0x1_0000);
    assert(q2 == b / 0x1_0000_0000);
    assert(q3 == b / 0x1_0000_0000_0000);
    assert(q4 == b / 0x1_0000_0000_0000_0000);
    assert(q5 == b / 0x1_0000_0000_0000_0000_0000);
    assert(q6 == b / 0x1_0000_0000_0000_0000_0000_0000);
    assert(q7 == b / 0x1_0000_0000_0000_0000_0000_0000_0000);
    assert(0 <= q7 < 0x1_0000);
    assert(g =~= seq![
        q7,
        q6 % 0x1_0000,
        q5 % 0x1_0000,
        q4 % 0x1_0000,
        q3 % 0x1_0000,
        q2 % 0x1_0000,
        q1 % 0x1_0000,
        b % 0x1_0000,
    ]);
    lemma_joined(g.take(0), q7);
    lemma_joined(g.take(1), q6 % 0x1_0000);
    lemma_joined(g.take(2), q5 % 0x1_0000);
    lemma_joined(g.take(3), q4 % 0x1_0000);
    lemma_joined(g.take(4), q3 % 0x1_0000);
    lemma_joined(g.take(5), q2 % 0x1_0000);
    lemma_joined(g.take(6), q1 % 0x1_0000);
    lemma_joined(g.take(7), b % 0x1_0000);
    assert(g.take(0) =~= Seq::empty());
    assert(text::joined(g.take(0)) == 0);
    assert(g.take(0).push(q7) =~= g.take(1));
    assert(g.take(1).push(q6 % 0x1_0000) =~= g.take(2));
    assert(g.take(2).push(q5 % 0x1_0000) =~= g.take(3));
    assert(g.take(3).push(q4 % 0x1_0000) =~= g.take(4));
    assert(g.take(4).push(q3 % 0x1_0000) =~= g.take(5));
    assert(g.take(5).push(q2 % 0x1_0000) =~= g.take(6));
    assert(g.take(6).push(q1 % 0x1_0000) =~= g.take(7));
    assert(g.take(7).push(b % 0x1_0000) =~= g);
}

proof fn lemma_joined(g: Seq<int>, x: int)
    ensures
        text::joined(g.push(x)) == text::joined(g) * 0x1_0000 + x,
{
    assert(g.push(x).drop_last() =~= g);
}

/// An address of 128 bits that is written reads back as itself.
pub proof fn law_text_of_128_bits_reads_back(a: Ipv6Addr)
    ensures
        text::parsed_v6(text::text_v6(a)) == Some(a),
        !lacks(text::text_v6(a), 58u8),
{
    let g = text::segments(a);
    let t = text::text_v6(a);
    lemma_segments(a);
    lemma_longest(g, 8);
    let start = text::longest_run(g, 8);
    lemma_run(g, start);
    let len = text::run_len(g, start);
    if a.bits as int / 0x1_0000_0000 == 0xffff {
        lemma_embedded(a);
    } else if len > 1 {
        let head = text::text_groups(g, 0, start);
        let tail = text::text_groups(g, start + len, 8);
        lemma_text_groups(g, 0, start);
        lemma_gap(head, tail, 0);
        lemma_groups_of(g, 0, start, false);
        lemma_groups_of(g, start + len, 8, true);
        let n = head.len() as int;
        assert(t.take(n) =~= head);
        assert(t.skip(n + 2) =~= tail);
        let (h, r) = (g.subrange(0, start), g.subrange(start + len, 8));
        assert(h + text::zeros(8 - h.len() - r.len()) + r =~= g);
        assert(t[n] == 58u8);
    } else {
        lemma_text_groups(g, 0, 8);
        lemma_no_gap(t, 0);
        lemma_groups_of(g, 0, 8, true);
        assert(g.subrange(0, 8) =~= g);
    }
}

proof fn lemma_embedded(a: Ipv6Addr)
    requires
        a.bits as int / 0x1_0000_0000 == 0xffff,
    ensures
        text::parsed_v6(text::text_v6(a)) == Some(a),
        !lacks(text::text_v6(a), 58u8),
{
    let v4 = Ipv4Addr { bits: (a.bits % 0x1_0000_0000) as u32 };
    let t = text::text_v6(a);
    let x = text::text_v4(v4);
    let none = Seq::<u8>::empty();
    let tail = seq![102u8, 102u8, 102u8, 102u8] + seq![58u8] + x;
    assert(t =~= none + seq![58u8, 58u8] + tail);
    lemma_gap(none, tail, 0);
    assert(t.take(0) =~= none);
    assert(t.skip(2) =~= tail);
    lemma_embedded_tail(v4);
    let (hi, lo) = (v4.bits as int / 0x1_0000, v4.bits as int % 0x1_0000);
    lemma_embedded_number(hi, lo);
    let g = seq![0xffffint, hi, lo];
    assert(text::groups_of(t.take(0), false) == Some(Seq::<int>::empty()));
    assert(text::groups_of(t.skip(2), true) == Some(g));
    assert(Seq::<int>::empty() + text::zeros(5) + g =~= text::zeros(5) + g);
    assert(t[0] == 58u8);
}

proof fn lemma_embedded_tail(v4: Ipv4Addr)
    ensures
        text::groups_of(
            seq![102u8, 102u8, 102u8, 102u8] + seq![58u8] + text::text_v4(v4),
            true,
        ) == Some(seq![0xffffint, v4.bits as int / 0x1_0000, v4.bits as int % 0x1_0000]),
{
    let x = text::text_v4(v4);
    let ffff = seq![102u8, 102u8, 102u8, 102u8];
    lemma_text_v4(v4);
    lemma_piece_more(ffff, x, 58u8, 0);
    lemma_one_piece(ffff, 58u8);
    let p = text::pieces(ffff + seq![58u8] + x, 58u8, 0);
    assert(p =~= seq![ffff, x]);
    lemma_ffff();
    text::law_v4_text_reads_back(v4);
    let (hi, lo) = (v4.bits as int / 0x1_0000, v4.bits as int % 0x1_0000);
    assert(p.skip(1) =~= seq![x]);
    assert(text::groups(p.skip(1), true) == Some(seq![hi, lo]));
    assert(seq![0xffffint] + seq![hi, lo] =~= seq![0xffffint, hi, lo]);
}

proof fn lemma_ffff()
    ensures
        text::group_value(seq![102u8, 102u8, 102u8, 102u8]) == Some(0xffffint),
{
    let ffff = seq![102u8, 102u8, 102u8, 102u8];
    reveal_with_fuel(text::value_of, 5);
    assert(ffff.drop_last() =~= seq![102u8, 102u8, 102u8]);
    assert(ffff.drop_last().drop_last() =~= seq![102u8, 102u8]);
    assert(ffff.drop_last().drop_last().drop_last() =~= seq![102u8]);
    assert(ffff.drop_last().drop_last().drop_last().drop_last() =~= Seq::empty());
}

proof fn lemma_embedded_number(hi: int, lo: int)
    ensures
        text::joined(text::zeros(5) + seq![0xffffint, hi, lo]) == 0xffff * 0x1_0000_0000 + hi
            * 0x1_0000 + lo,
{
    let z = text::zeros(5);
    assert(z + seq![0xffffint, hi, lo] =~= z.push(0xffff).push(hi).push(lo));
    lemma_zeros(5);
    lemma_joined(z, 0xffff);
    lemma_joined(z.push(0xffff), hi);
    lemma_joined(z.push(0xffff).push(hi), lo);
}

proof fn lemma_zeros(n: nat)
    ensures
        text::joined(text::zeros(n as int)) == 0,
    decreases n,
{
    if n > 0 {
        lemma_zeros((n - 1) as nat);
        assert(text::zeros(n as int).drop_last() =~= text::zeros(n - 1));
    }
}

/// The text of an address of 32 bits has only digits and dots, and ends with a digit.
proof fn lemma_text_v4(a: Ipv4Addr)
    ensures
        lacks(text::text_v4(a), 58u8),
        text::text_v4(a).len() > 0,
{
    law_number_reads_back(a.octet(0), 10, 255);
    law_number_reads_back(a.octet(1), 10, 255);
    law_number_reads_back(a.octet(2), 10, 255);
    law_number_reads_back(a.octet(3), 10, 255);
    let dot = seq![46u8];
    let p0 = text::numeral(a.octet(0), 10);
    let p1 = text::numeral(a.octet(1), 10);
    let p2 = text::numeral(a.octet(2), 10);
    let p3 = text::numeral(a.octet(3), 10);
    lemma_lacks(p0, dot, 58u8);
    lemma_lacks(p0 + dot, p1, 58u8);
    lemma_lacks(p0 + dot + p1, dot, 58u8);
    lemma_lacks(p0 + dot + p1 + dot, p2, 58u8);
    lemma_lacks(p0 + dot + p1 + dot + p2, dot, 58u8);
    lemma_lacks(p0 + dot + p1 + dot + p2 + dot, p3, 58u8);
}

proof fn lemma_lacks(s: Seq<u8>, t: Seq<u8>, b: u8)
    requires
        lacks(s, b),
        lacks(t, b),
    ensures
        lacks(s + t, b),
{
    assert forall|i: int| 0 <= i < (s + t).len() implies #[trigger] (s + t)[i] != b by {
        if i < s.len() {
            assert((s + t)[i] == s[i]);
        } else {
            assert((s + t)[i] == t[i - s.len()]);
        }
    }
}

/// An address that is written reads back as itself.
pub proof fn law_address_reads_back(a: IpAddr)
    ensures
        text::parsed_ip(text::text_ip(a)) == Some(a),
{
    match a {
        IpAddr::V4(v4) => text::law_v4_text_reads_back(v4),
        IpAddr::V6(v6) => {
            law_text_of_128_bits_reads_back(v6);
            let t = text::text_v6(v6);
            if let Some(b) = text::parsed_v4(t) {
                law_text_of_32_bits_is_unique(t, b);
                lemma_text_v4(b);
            }
        },
    }
}

/// A socket address that is written reads back as itself.
pub proof fn law_socket_address_reads_back(a: SocketAddr)
    ensures
        text::parsed_socket(text::text_socket(a)) == Some(a),
{
    let port = text::numeral(a.port as int, 10);
    law_number_reads_back(a.port as int, 10, 0xffff);
    let t = text::text_socket(a);
    match a.ip {
        IpAddr::V4(ip) => {
            let x = text::text_v4(ip);
            let k = x.len() as int;
            assert(t == x + seq![58u8] + port);
            lemma_last_colon(t, k, t.len() as int, port);
            assert(t.skip(k + 1) =~= port);
            assert(t.take(k) =~= x);
            text::law_v4_text_reads_back(ip);
        },
        IpAddr::V6(ip) => {
            let x = text::text_v6(ip);
            let k = x.len() as int + 2;
            assert(t == seq![91u8] + x + seq![93u8, 58u8] + port);
            lemma_last_colon(t, k, t.len() as int, port);
            assert(t.skip(k + 1) =~= port);
            assert(t[0] == 91u8 && t[k - 1] == 93u8);
            assert(t.subrange(1, k - 1) =~= x);
            law_text_of_128_bits_reads_back(ip);
            let y = t.take(k);
            assert(y[0] == 91u8);
            if let Some(b) = text::parsed_v4(y) {
                law_text_of_32_bits_is_unique(y, b);
                lemma_text_v4(b);
                law_number_reads_back(b.octet(0), 10, 255);
                assert(text::text_v4(b)[0] == text::numeral(b.octet(0), 10)[0]);
            }
        },
    }
}

proof fn lemma_last_colon(t: Seq<u8>, k: int, end: int, port: Seq<u8>)
    requires
        0 <= k < end <= t.len(),
        t[k] == 58u8,
        t.len() == k + 1 + port.len(),
        forall|i: int| 0 <= i < port.len() ==> #[trigger] t[k + 1 + i] == port[i],
        forall|i: int|
            0 <= i < port.len() ==> 48 <= #[trigger] port[i] <= 57 || 97 <= port[i] <= 102,
    ensures
        text::find_last(t, 58u8, end) == k,
    decreases end,
{
    if end > k + 1 {
        let i = end - 1 - (k + 1);
        assert(t[k + 1 + i] == port[i]);
        lemma_last_colon(t, k, end - 1, port);
    }
}

} // verus!
