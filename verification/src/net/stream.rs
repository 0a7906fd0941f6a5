//! The bytes of a connection.
use crate::addr::SocketAddr;
use crate::envelope::{Payload, Segment};
use crate::error::{Cause, Error, ErrorKind};
use vstd::prelude::*;

verus! {

/// The two ends of a connection.
#[derive(Clone, Copy, Debug, PartialEq, Eq, Hash, Structural)]
pub struct SocketPair {
    /// The end here.
    pub local: SocketAddr,
    /// The other end.
    pub remote: SocketAddr,
}

impl SocketPair {
    /// Two ends, which are different.
    pub fn new(local: SocketAddr, remote: SocketAddr) -> (r: SocketPair)
        requires
            local != remote,
        ensures
            r == (SocketPair { local, remote }),
    {
        SocketPair { local, remote }
    }
}

/// What comes in over a connection, in sequence.
pub enum SequencedSegment {
    /// Bytes.
    Data(Payload),
    /// The end of the bytes.
    Fin,
}

/// What there is to read.
pub enum Arrival {
    /// Nothing yet.
    Pending,
    /// A part of the traffic.
    Segment(SequencedSegment),
    /// The peer has reset the connection.
    Closed,
}

/// What a read comes to.
#[derive(Debug)]
pub enum Poll<T> {
    /// The task has to wait.
    Pending,
    /// The operation is done.
    Ready(T),
}

/// The bytes of a connection in both directions.
pub struct TcpStream {
    /// The two ends.
    pub pair: SocketPair,
    /// Bytes that have come in and not been read.
    pub rest: Vec<u8>,
    /// Whether the peer has sent all its bytes.
    pub is_closed: bool,
    /// Whether all bytes have been sent to the peer.
    pub is_shutdown: bool,
}

/// The bytes of a connection in both directions.
#[verifier::ext_equal]
pub struct StreamView {
    /// The two ends.
    pub pair: SocketPair,
    /// Bytes that have come in and not been read.
    pub rest: Seq<u8>,
    /// Whether the peer has sent all its bytes.
    pub is_closed: bool,
    /// Whether all bytes have been sent to the peer.
    pub is_shutdown: bool,
}

impl View for TcpStream {
    type V = StreamView;

    open spec fn view(&self) -> StreamView {
        StreamView {
            pair: self.pair,
            rest: self.rest@,
            is_closed: self.is_closed,
            is_shutdown: self.is_shutdown,
        }
    }
}

/// The smaller of two numbers.
pub open spec fn least(a: nat, b: nat) -> nat {
    if a < b {
        a
    } else {
        b
    }
}

/// Splits off as many bytes as there is room for.
fn split_front(bytes: Vec<u8>, room: usize) -> (r: (Vec<u8>, Vec<u8>))
    ensures
        r.0@ == bytes@.take(least(bytes@.len(), room as nat) as int),
        r.1@ == bytes@.skip(least(bytes@.len(), room as nat) as int),
{
    let mut front: Vec<u8> = bytes;
    let at: usize = if front.len() < room {
        front.len()
    } else {
        room
    };
    let back = front.split_off(at);
    assert(front@ =~= bytes@.take(at as int));
    assert(back@ =~= bytes@.skip(at as int));
    (front, back)
}

impl TcpStream {
    /// A connection over which nothing has come or gone.
    pub fn new(pair: SocketPair) -> (r: TcpStream)
        ensures
            r@ == (StreamView {
                pair,
                rest: Seq::empty(),
                is_closed: false,
                is_shutdown: false,
            }),
    {
        let r = TcpStream { pair, rest: Vec::new(), is_closed: false, is_shutdown: false };
        assert(r@.rest =~= Seq::empty());
        r
    }

    /// Whether a read of so many bytes looks at what has come in.
    pub open spec fn looks(v: StreamView, room: usize) -> bool {
        !v.is_closed && room > 0 && v.rest.len() == 0
    }

    /// Whether a read of so many bytes looks at what has come in.
    pub fn needs_arrival(&self, room: usize) -> (r: bool)
        ensures
            r == TcpStream::looks(self@, room),
    {
        !self.is_closed && room > 0 && self.rest.len() == 0
    }

    /// Reads at most so many bytes. After the end of the bytes, and where there is no room,
    /// nothing is read. What does not fit stays for the next read.
    pub fn poll_read(&mut self, room: usize, arrival: Arrival) -> (r: Poll<Result<Vec<u8>, Error>>)
        ensures
            ({
                let v = old(self)@;
                if v.is_closed || room == 0 {
                    &&& r matches Poll::Ready(Ok(out)) && out@ == Seq::<u8>::empty()
                    &&& final(self)@ == v
                } else if v.rest.len() > 0 {
                    let n = least(v.rest.len(), room as nat) as int;
                    &&& r matches Poll::Ready(Ok(out)) && out@ == v.rest.take(n)
                    &&& final(self)@ == StreamView { rest: v.rest.skip(n), ..v }
                } else {
                    match arrival {
                        Arrival::Pending => r is Pending && final(self)@ == v,
                        Arrival::Segment(SequencedSegment::Data(data)) => {
                            let n = least(data@.len(), room as nat) as int;
                            &&& r matches Poll::Ready(Ok(out)) && out@ == data@.take(n)
                            &&& final(self)@ == StreamView { rest: data@.skip(n), ..v }
                        },
                        Arrival::Segment(SequencedSegment::Fin) => {
                            &&& r matches Poll::Ready(Ok(out)) && out@ == Seq::<u8>::empty()
                            &&& final(self)@ == StreamView { is_closed: true, ..v }
                        },
                        Arrival::Closed => {
                            &&& r matches Poll::Ready(Err(e)) && e == (Error {
                                kind: ErrorKind::ConnectionReset,
                                cause: Cause::Reset,
                            })
                            &&& final(self)@ == v
                        },
                    }
                }
            }),
    {
        if self.is_closed || room == 0 {
            let out: Vec<u8> = Vec::new();
            assert(out@ =~= Seq::empty());
            return Poll::Ready(Ok(out));
        }
        if self.rest.len() > 0 {
            let mut bytes: Vec<u8> = Vec::new();
            std::mem::swap(&mut bytes, &mut self.rest);
            let (front, back) = split_front(bytes, room);
            self.rest = back;
            return Poll::Ready(Ok(front));
        }
        assert(self@.rest =~= Seq::empty());
        match arrival {
            Arrival::Pending => Poll::Pending,
            Arrival::Segment(segment) => match segment {
                SequencedSegment::Data(data) => {
                    let (front, back) = split_front(data.to_vec(), room);
                    self.rest = back;
                    Poll::Ready(Ok(front))
                },
                SequencedSegment::Fin => {
                    self.is_closed = true;
                    let out: Vec<u8> = Vec::new();
                    assert(out@ =~= Seq::empty());
                    Poll::Ready(Ok(out))
                },
            },
            Arrival::Closed => Poll::Ready(
                Err(Error::new(ErrorKind::ConnectionReset, Cause::Reset)),
            ),
        }
    }

    /// Writes bytes: returns how many, and what is to be sent. Writing nothing sends nothing.
    /// Without a number in the sequence the peer has reset the connection.
    pub fn poll_write(&self, buf: &[u8], seq: Option<u64>) -> (r: (Result<usize, Error>, Option<
        Segment,
    >))
        ensures
            if buf@.len() == 0 {
                r.0 == Ok::<usize, Error>(0) && r.1 is None
            } else if self.is_shutdown || seq is None {
                &&& r.0 == Err::<usize, Error>(
                    Error { kind: ErrorKind::BrokenPipe, cause: Cause::ClosedForWrites },
                )
                &&& r.1 is None
            } else {
                &&& r.0 == Ok::<usize, Error>(buf@.len() as usize)
                &&& r.1 matches Some(Segment::Data(n, data)) && n == seq->0 && data@ == buf@
            },
    {
        if buf.len() == 0 {
            return (Ok(0), None);
        }
        if self.is_shutdown {
            return (Err(Error::new(ErrorKind::BrokenPipe, Cause::ClosedForWrites)), None);
        }
        match seq {
            Some(n) => (Ok(buf.len()), Some(Segment::Data(n, Payload::copy_from_slice(buf)))),
            None => (Err(Error::new(ErrorKind::BrokenPipe, Cause::ClosedForWrites)), None),
        }
    }

    /// Ends the bytes to the peer, which can be done once. Returns what is to be sent.
    pub fn poll_shutdown(&mut self, seq: Option<u64>) -> (r: (Result<(), Error>, Option<Segment>))
        ensures
            if old(self).is_shutdown {
                &&& r.0 == Err::<(), Error>(
                    Error { kind: ErrorKind::NotConnected, cause: Cause::Unconnected },
                )
                &&& r.1 is None
                &&& final(self)@ == old(self)@
            } else if seq is None {
                &&& r.0 == Err::<(), Error>(
                    Error { kind: ErrorKind::BrokenPipe, cause: Cause::ClosedForWrites },
                )
                &&& r.1 is None
                &&& final(self)@ == old(self)@
            } else {
                &&& r.0 == Ok::<(), Error>(())
                &&& r.1 matches Some(Segment::Fin(n)) && n == seq->0
                &&& final(self)@ == (StreamView { is_shutdown: true, ..old(self)@ })
            },
    {
        if self.is_shutdown {
            return (Err(Error::new(ErrorKind::NotConnected, Cause::Unconnected)), None);
        }
        match seq {
            Some(n) => {
                self.is_shutdown = true;
                (Ok(()), Some(Segment::Fin(n)))
            },
            None => (Err(Error::new(ErrorKind::BrokenPipe, Cause::ClosedForWrites)), None),
        }
    }

    /// Gives the connection up. Returns what is to be sent, unless the peer has reset it.
    pub fn close(self, seq: Option<u64>) -> (r: Option<Segment>)
        ensures
            match seq {
                Some(n) => r matches Some(Segment::Fin(m)) && m == n,
                None => r is None,
            },
    {
        match seq {
            Some(n) => Some(Segment::Fin(n)),
            None => None,
        }
    }

    /// Splits the connection into one half for each direction. The number tells which halves
    /// belong together.
    pub fn into_split(self, token: u64) -> (r: (OwnedReadHalf, OwnedWriteHalf))
        ensures
            is_split(self@, token, r.0, r.1),
    {
        (
            OwnedReadHalf {
                pair: self.pair,
                rest: self.rest,
                is_closed: self.is_closed,
                token,
            },
            OwnedWriteHalf { pair: self.pair, is_shutdown: self.is_shutdown, token },
        )
    }
}

/// The half of a connection that is read from.
pub struct OwnedReadHalf {
    /// The two ends.
    pub pair: SocketPair,
    /// Bytes that have come in and not been read.
    pub rest: Vec<u8>,
    /// Whether the peer has sent all its bytes.
    pub is_closed: bool,
    /// The number of the connection.
    pub token: u64,
}

/// The half of a connection that is written to.
pub struct OwnedWriteHalf {
    /// The two ends.
    pub pair: SocketPair,
    /// Whether all bytes have been sent to the peer.
    pub is_shutdown: bool,
    /// The number of the connection.
    pub token: u64,
}

/// Whether the halves are those of the connection.
pub open spec fn is_split(
    v: StreamView,
    token: u64,
    read: OwnedReadHalf,
    write: OwnedWriteHalf,
) -> bool {
    &&& read.pair == v.pair
    &&& read.rest@ == v.rest
    &&& read.is_closed == v.is_closed
    &&& read.token == token
    &&& write == OwnedWriteHalf { pair: v.pair, is_shutdown: v.is_shutdown, token }
}

/// Two halves that do not belong together.
pub struct ReuniteError(pub OwnedReadHalf, pub OwnedWriteHalf);

impl ReuniteError {
    /// The text of the error.
    pub fn message(&self) -> (r: &'static str)
        ensures
            r@ == "tried to reunite halves that are not from the same socket"@,
    {
        "tried to reunite halves that are not from the same socket"
    }
}

/// What putting two halves together comes to.
pub open spec fn is_reunited(
    r: Result<TcpStream, ReuniteError>,
    read: OwnedReadHalf,
    write: OwnedWriteHalf,
) -> bool {
    if read.token == write.token {
        &&& r matches Ok(s)
        &&& s@ == StreamView {
            pair: read.pair,
            rest: read.rest@,
            is_closed: read.is_closed,
            is_shutdown: write.is_shutdown,
        }
    } else {
        r matches Err(e) && e.0 == read && e.1 == write
    }
}

fn reunite(read: OwnedReadHalf, write: OwnedWriteHalf) -> (r: Result<TcpStream, ReuniteError>)
    ensures
        is_reunited(r, read, write),
{
    if read.token == write.token {
        Ok(
            TcpStream {
                pair: read.pair,
                rest: read.rest,
                is_closed: read.is_closed,
                is_shutdown: write.is_shutdown,
            },
        )
    } else {
        Err(ReuniteError(read, write))
    }
}

impl OwnedReadHalf {
    /// The end here.
    pub fn local_addr(&self) -> (r: SocketAddr)
        ensures
            r == self.pair.local,
    {
        self.pair.local
    }

    /// The other end.
    pub fn peer_addr(&self) -> (r: SocketAddr)
        ensures
            r == self.pair.remote,
    {
        self.pair.remote
    }

    /// Puts the halves of a connection together, where they belong together.
    pub fn reunite(self, other: OwnedWriteHalf) -> (r: Result<TcpStream, ReuniteError>)
        ensures
            is_reunited(r, self, other),
    {
        reunite(self, other)
    }
}

impl OwnedWriteHalf {
    /// The end here.
    pub fn local_addr(&self) -> (r: SocketAddr)
        ensures
            r == self.pair.local,
    {
        self.pair.local
    }

    /// The other end.
    pub fn peer_addr(&self) -> (r: SocketAddr)
        ensures
            r == self.pair.remote,
    {
        self.pair.remote
    }

    /// Puts the halves of a connection together, where they belong together.
    pub fn reunite(self, other: OwnedReadHalf) -> (r: Result<TcpStream, ReuniteError>)
        ensures
            is_reunited(r, other, self),
    {
        reunite(other, self)
    }
}

/// The bytes of one part of the traffic are read whole and in order, however little is read at
/// a time: what is read and what stays make up what came.
pub proof fn law_reading_loses_nothing(data: Seq<u8>, room: nat)
    ensures
        data.take(least(data.len(), room) as int) + data.skip(least(data.len(), room) as int)
            == data,
        room > 0 && data.len() > 0 ==> data.take(least(data.len(), room) as int).len() > 0,
{
    let n = least(data.len(), room) as int;
    assert(data.take(n) + data.skip(n) =~= data);
}

/// The halves of a connection put together are the connection, and halves of different
/// connections are given back as they were.
pub proof fn law_halves_make_the_connection(
    v: StreamView,
    w: StreamView,
    a: u64,
    b: u64,
    read: OwnedReadHalf,
    write: OwnedWriteHalf,
    other: OwnedWriteHalf,
    r: Result<TcpStream, ReuniteError>,
    x: Result<TcpStream, ReuniteError>,
)
    requires
        is_split(v, a, read, write),
        a != b,
        other == (OwnedWriteHalf { pair: w.pair, is_shutdown: w.is_shutdown, token: b }),
        is_reunited(r, read, write),
        is_reunited(x, read, other),
    ensures
        r matches Ok(s) && s@ == v,
        x matches Err(e) && e.0 == read && e.1 == other,
{
}

} // verus!
