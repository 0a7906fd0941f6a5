//! What travels over the network.
use crate::addr::SocketAddr;
use bytes::Bytes;
use vstd::prelude::*;

verus! {

/// Declares `bytes::Bytes`.
#[verifier::external_type_specification]
#[verifier::external_body]
pub struct ExBytes(Bytes);

/// Bytes that can be shared. Its view is what they are.
pub struct Payload {
    bytes: Bytes,
    contents: Ghost<Seq<u8>>,
}

impl View for Payload {
    type V = Seq<u8>;

    closed spec fn view(&self) -> Seq<u8> {
        self.contents@
    }
}

impl Payload {
    /// `Bytes::copy_from_slice`: the bytes of the slice.
    #[verifier::external_body]
    pub(crate) fn copy_from_slice(data: &[u8]) -> (r: Payload)
        ensures
            r@ == data@,
    {
        Payload { bytes: Bytes::copy_from_slice(data), contents: Ghost(data@) }
    }

    /// `Bytes::as_ref`: the bytes as a slice.
    #[verifier::external_body]
    pub(crate) fn as_slice(&self) -> (r: &[u8])
        ensures
            r@ == self@,
    {
        self.bytes.as_ref()
    }

    /// `Bytes::clone`: the same bytes once more.
    #[verifier::external_body]
    pub(crate) fn share(&self) -> (r: Payload)
        ensures
            r@ == self@,
    {
        Payload { bytes: self.bytes.clone(), contents: Ghost(self@) }
    }

    /// The bytes.
    pub fn to_vec(&self) -> (r: Vec<u8>)
        ensures
            r@ == self@,
    {
        vstd::slice::slice_to_vec(self.as_slice())
    }
}

/// A datagram.
pub struct Datagram(pub Payload);

impl Datagram {
    /// A datagram with the bytes.
    pub fn new(data: &[u8]) -> (r: Datagram)
        ensures
            r.0@ == data@,
    {
        Datagram(Payload::copy_from_slice(data))
    }
}

/// The request for a connection, with the number by which its sender is told that the
/// request was accepted.
#[derive(Clone, Copy, Debug, PartialEq, Eq, Structural)]
pub struct Syn {
    /// The number.
    pub ack: u64,
}

/// A part of a connection's traffic.
pub enum Segment {
    /// The request for a connection.
    Syn(Syn),
    /// Bytes, with their number in the sequence.
    Data(u64, Payload),
    /// The end of the bytes, with its number in the sequence.
    Fin(u64),
    /// The connection is reset.
    Rst,
}

/// What a message is part of.
pub enum Protocol {
    /// A connection.
    Tcp(Segment),
    /// A datagram.
    Udp(Datagram),
}

/// What a message says.
#[verifier::ext_equal]
pub enum Packet {
    /// The request for a connection.
    Syn(Syn),
    /// Bytes of a connection, with their number in the sequence.
    Data(u64, Seq<u8>),
    /// The end of the bytes of a connection, with its number in the sequence.
    Fin(u64),
    /// A connection is reset.
    Rst,
    /// A datagram.
    Datagram(Seq<u8>),
}

impl View for Protocol {
    type V = Packet;

    open spec fn view(&self) -> Packet {
        match *self {
            Protocol::Tcp(Segment::Syn(syn)) => Packet::Syn(syn),
            Protocol::Tcp(Segment::Data(seq, data)) => Packet::Data(seq, data@),
            Protocol::Tcp(Segment::Fin(seq)) => Packet::Fin(seq),
            Protocol::Tcp(Segment::Rst) => Packet::Rst,
            Protocol::Udp(datagram) => Packet::Datagram(datagram.0@),
        }
    }
}

impl Protocol {
    /// Whether this is the request for a connection with the number.
    pub fn is_request(&self, ack: u64) -> (r: bool)
        ensures
            r == (self@ == Packet::Syn(Syn { ack })),
    {
        match self {
            Protocol::Tcp(Segment::Syn(syn)) => syn.ack == ack,
            _ => false,
        }
    }
}

/// A message on its way.
pub struct Envelope {
    /// Where it comes from.
    pub src: SocketAddr,
    /// Where it goes.
    pub dst: SocketAddr,
    /// What it says.
    pub message: Protocol,
}

/// A message on its way.
#[verifier::ext_equal]
pub struct EnvelopeView {
    /// Where it comes from.
    pub src: SocketAddr,
    /// Where it goes.
    pub dst: SocketAddr,
    /// What it says.
    pub packet: Packet,
}

impl View for Envelope {
    type V = EnvelopeView;

    open spec fn view(&self) -> EnvelopeView {
        EnvelopeView { src: self.src, dst: self.dst, packet: self.message@ }
    }
}

/// The hexadecimal digit in upper case.
pub open spec fn upper_digit(d: int) -> u8 {
    if d < 10 {
        (48 + d) as u8
    } else {
        (55 + d) as u8
    }
}

/// A byte as `0x` and one or two hexadecimal digits.
pub open spec fn hex_byte(b: u8) -> Seq<u8> {
    if b < 16 {
        seq![48u8, 120u8, upper_digit(b as int)]
    } else {
        seq![48u8, 120u8, upper_digit(b as int / 16), upper_digit(b as int % 16)]
    }
}

/// The first `n` bytes, separated by a comma and a space.
pub open spec fn hex_list(data: Seq<u8>, n: int) -> Seq<u8>
    decreases n,
{
    if n <= 0 {
        Seq::empty()
    } else if n == 1 {
        hex_byte(data[0])
    } else {
        hex_list(data, n - 1) + seq![44u8, 32u8] + hex_byte(data[n - 1])
    }
}

/// The name of the protocol and the bytes in square brackets.
pub open spec fn hex_text(protocol: Seq<u8>, data: Seq<u8>) -> Seq<u8> {
    protocol + seq![32u8, 91u8] + hex_list(data, data.len() as int) + seq![93u8]
}

/// `TCP`
pub open spec fn tcp_name() -> Seq<u8> {
    seq![84u8, 67u8, 80u8]
}

/// `UDP`
pub open spec fn udp_name() -> Seq<u8> {
    seq![85u8, 68u8, 80u8]
}

/// A message as text.
pub open spec fn packet_text(p: Packet) -> Seq<u8> {
    match p {
        Packet::Syn(_) => tcp_name() + seq![32u8, 83u8, 89u8, 78u8],
        Packet::Data(_, data) => hex_text(tcp_name(), data),
        Packet::Fin(_) => tcp_name() + seq![32u8, 70u8, 73u8, 78u8],
        Packet::Rst => tcp_name() + seq![32u8, 82u8, 83u8, 84u8],
        Packet::Datagram(data) => hex_text(udp_name(), data),
    }
}

fn push_hex_digit(out: &mut Vec<u8>, d: u8)
    requires
        d < 16,
    ensures
        final(out)@ == old(out)@.push(upper_digit(d as int)),
{
    if d < 10 {
        out.push(48 + d);
    } else {
        out.push(55 + d);
    }
}

/// The name of the protocol and the bytes in square brackets.
pub fn hex(protocol: Vec<u8>, data: &[u8]) -> (r: Vec<u8>)
    ensures
        r@ == hex_text(protocol@, data@),
{
    let ghost name = protocol@;
    let mut out = protocol;
    out.push(32);
    out.push(91);
    let ghost start = name + seq![32u8, 91u8];
    assert(out@ =~= start);
    let mut i: usize = 0;
    assert(out@ =~= start + hex_list(data@, 0));
    while i < data.len()
        invariant
            i <= data@.len(),
            out@ == start + hex_list(data@, i as int),
        decreases data.len() - i,
    {
        let b: u8 = data[i];
        if i > 0 {
            out.push(44);
            out.push(32);
        }
        out.push(48);
        out.push(120);
        if b < 16 {
            push_hex_digit(&mut out, b);
        } else {
            push_hex_digit(&mut out, b / 16);
            push_hex_digit(&mut out, b % 16);
        }
        i = i + 1;
        assert(out@ =~= start + hex_list(data@, i as int));
    }
    out.push(93);
    assert(out@ =~= hex_text(name, data@));
    out
}

impl Protocol {
    /// The message as text.
    pub fn to_text(&self) -> (r: Vec<u8>)
        ensures
            r@ == packet_text(self@),
    {
        let r: Vec<u8> = match self {
            Protocol::Tcp(segment) => match segment {
                Segment::Syn(_) => vec![84, 67, 80, 32, 83, 89, 78],
                Segment::Data(_, data) => {
                    let name: Vec<u8> = vec![84, 67, 80];
                    assert(name@ =~= tcp_name());
                    hex(name, data.as_slice())
                },
                Segment::Fin(_) => vec![84, 67, 80, 32, 70, 73, 78],
                Segment::Rst => vec![84, 67, 80, 32, 82, 83, 84],
            },
            Protocol::Udp(datagram) => {
                let name: Vec<u8> = vec![85, 68, 80];
                assert(name@ =~= udp_name());
                hex(name, datagram.0.as_slice())
            },
        };
        assert(r@ =~= packet_text(self@));
        r
    }
}

} // verus!
