//! The connections of a host, as its kernel keeps them.
use crate::addr;
use crate::addr::{IpAddr, Ipv4Addr, Ipv6Addr, Key, SocketAddr};
use crate::envelope::{Segment, Syn};
use crate::error::{Cause, Error, ErrorKind};
use crate::ordered;
use crate::ordered::{number_key, Entries, KeyMap};
use std::collections::VecDeque;
use vstd::prelude::*;

verus! {

/// The number of a socket.
#[derive(Clone, Copy, Debug, PartialEq, Eq, Hash, Structural)]
pub struct Fd(pub u16);

struct Bind {
    addr: SocketAddr,
    buf: VecDeque<(Syn, SocketAddr)>,
    waker: Option<u64>,
}

struct Socket {
    local: SocketAddr,
}

/// The sockets of a host that listen, and those that are connected.
pub struct Tcp {
    fds: KeyMap<Fd>,
    next_fd: u16,
    binds: KeyMap<Bind>,
    sockets: KeyMap<Socket>,
    capacity: usize,
}

/// A socket that listens.
#[verifier::ext_equal]
pub struct BindView {
    /// The address that it listens at.
    pub addr: SocketAddr,
    /// The requests that wait to be accepted, each with its origin, the oldest first.
    pub queue: Seq<(Syn, SocketAddr)>,
    /// The task that waits for a request.
    pub waker: Option<u64>,
}

/// The sockets of a host.
#[verifier::ext_equal]
pub struct TcpView {
    /// The socket at each address that has one.
    pub fds: Map<SocketAddr, Fd>,
    /// The number of the next socket.
    pub next_fd: u16,
    /// The sockets that listen.
    pub binds: Map<Fd, BindView>,
    /// The sockets that are connected, each with its address.
    pub sockets: Map<Fd, SocketAddr>,
    /// How many requests can wait at a socket.
    pub capacity: usize,
}

/// The key of a socket's number.
pub open spec fn fd_key() -> spec_fn(Fd) -> Key {
    |fd: Fd| number_key(fd.0 as u64)
}

/// The key of a socket's address.
pub open spec fn socket_key() -> spec_fn(SocketAddr) -> Key {
    |a: SocketAddr| a.key()
}

proof fn lemma_keys()
    ensures
        ordered::is_faithful(fd_key()),
        ordered::is_faithful(socket_key()),
{
    assert forall|a: SocketAddr, b: SocketAddr|
        #[trigger] socket_key()(a) == #[trigger] socket_key()(b) implies a == b by {
        addr::lemma_socket_keys(a, b);
    }
}

impl Bind {
    spec fn shown(self) -> BindView {
        BindView { addr: self.addr, queue: self.buf@, waker: self.waker }
    }
}

spec fn shown_binds(e: Entries<Key, Bind>) -> Map<Fd, BindView> {
    ordered::rekeyed(e, fd_key()).map_values(|b: Bind| b.shown())
}

spec fn shown_sockets(e: Entries<Key, Socket>) -> Map<Fd, SocketAddr> {
    ordered::rekeyed(e, fd_key()).map_values(|s: Socket| s.local)
}

proof fn lemma_fd_keys<V>(e: Entries<Key, V>, fd: Fd, v: V)
    requires
        all_fd_keys(e),
    ensures
        all_fd_keys(e.with(number_key(fd.0 as u64), v)),
        all_fd_keys(e.swapped_out(number_key(fd.0 as u64))),
{
    let key = number_key(fd.0 as u64);
    assert forall|k: Key| #[trigger] e.with(key, v).has(k) implies k.0 <= 0xffff && k.1 == 0 && k.2
        == 0 by {
        assert(k == key || e.has(k));
    }
    assert forall|k: Key| #[trigger] e.swapped_out(key).has(k) implies k.0 <= 0xffff && k.1 == 0
        && k.2 == 0 by {
        assert(e.has(k));
    }
}

proof fn lemma_shown_with(e: Entries<Key, Bind>, fd: Fd, b: Bind)
    ensures
        shown_binds(e.with(number_key(fd.0 as u64), b)) == shown_binds(e).insert(fd, b.shown()),
        all_fd_keys(e) ==> all_fd_keys(e.with(number_key(fd.0 as u64), b)),
{
    lemma_keys();
    if all_fd_keys(e) {
        lemma_fd_keys(e, fd, b);
    }
    ordered::lemma_rekeyed_with(e, fd_key(), fd, b);
    assert(shown_binds(e.with(number_key(fd.0 as u64), b)) =~= shown_binds(e).insert(fd, b.shown()));
}

impl View for Tcp {
    type V = TcpView;

    closed spec fn view(&self) -> TcpView {
        TcpView {
            fds: ordered::rekeyed(self.fds@, socket_key()),
            next_fd: self.next_fd,
            binds: shown_binds(self.binds@),
            sockets: shown_sockets(self.sockets@),
            capacity: self.capacity,
        }
    }
}

/// The address at which an accepted connection ends here: that of the listener, but the
/// origin's own where the connection stays within the host, and the host's where the
/// listener serves every address.
pub open spec fn accepted_at(bound: SocketAddr, origin: SocketAddr, public_ip: IpAddr) -> SocketAddr {
    let ip = if origin.ip.loopback() {
        origin.ip
    } else {
        bound.ip
    };
    SocketAddr {
        ip: if ip.unspecified() {
            public_ip
        } else {
            ip
        },
        port: bound.port,
    }
}

/// The port at every address of 32 bits.
pub open spec fn any_v4(port: u16) -> SocketAddr {
    SocketAddr { ip: IpAddr::V4(Ipv4Addr { bits: 0 }), port }
}

/// The port at every address of 128 bits.
pub open spec fn any_v6(port: u16) -> SocketAddr {
    SocketAddr { ip: IpAddr::V6(Ipv6Addr { bits: 0 }), port }
}

/// Whether the request with the number is among those that wait.
pub open spec fn has_request(queue: Seq<(Syn, SocketAddr)>, ack: u64) -> bool {
    exists|i: int| 0 <= i < queue.len() && (#[trigger] queue[i]).0.ack == ack
}

impl TcpView {
    /// The sockets with a connected one more, which has the next number.
    pub open spec fn connected(self, local: SocketAddr) -> TcpView {
        self.added(local, true)
    }

    /// The sockets with one more that was accepted, which has the next number. A listener at
    /// that very address keeps it.
    pub open spec fn accepted(self, local: SocketAddr) -> TcpView {
        self.added(local, !self.listens_at(local))
    }

    /// The sockets with a connected one more, which is found at its address or not.
    pub open spec fn added(self, local: SocketAddr, is_found: bool) -> TcpView {
        let fd = Fd(self.next_fd);
        TcpView {
            fds: if is_found {
                self.fds.insert(local, fd)
            } else {
                self.fds
            },
            next_fd: (self.next_fd + 1) as u16,
            sockets: self.sockets.insert(fd, local),
            ..self
        }
    }

    /// The sockets with a listening one more, which has the next number.
    pub open spec fn bound(self, addr: SocketAddr) -> TcpView {
        let fd = Fd(self.next_fd);
        TcpView {
            fds: self.fds.insert(addr, fd),
            next_fd: (self.next_fd + 1) as u16,
            binds: self.binds.insert(fd, BindView { addr, queue: Seq::empty(), waker: None }),
            ..self
        }
    }

    /// The address of a socket.
    pub open spec fn addr_of(self, fd: Fd) -> Option<SocketAddr> {
        if self.binds.contains_key(fd) {
            Some(self.binds[fd].addr)
        } else if self.sockets.contains_key(fd) {
            Some(self.sockets[fd])
        } else {
            None
        }
    }

    /// The sockets without one of them, whose address becomes free.
    pub open spec fn without(self, fd: Fd) -> TcpView {
        TcpView {
            fds: match self.addr_of(fd) {
                Some(a) => if self.fds.contains_key(a) && self.fds[a] == fd {
                    self.fds.remove(a)
                } else {
                    self.fds
                },
                None => self.fds,
            },
            binds: self.binds.remove(fd),
            sockets: self.sockets.remove(fd),
            ..self
        }
    }

    /// Whether the number of the next socket is larger than that of any other.
    pub open spec fn is_numbered(self) -> bool {
        &&& forall|fd: Fd| #[trigger] self.binds.contains_key(fd) ==> fd.0 < self.next_fd
        &&& forall|fd: Fd| #[trigger] self.sockets.contains_key(fd) ==> fd.0 < self.next_fd
    }

    /// The sockets where the task waits for a request at the listener.
    pub open spec fn waiting(self, fd: Fd, waker: u64) -> TcpView {
        TcpView {
            binds: self.binds.insert(fd, BindView { waker: Some(waker), ..self.binds[fd] }),
            ..self
        }
    }

    /// The sockets where the oldest request at the listener is taken.
    pub open spec fn taken(self, fd: Fd) -> TcpView {
        TcpView {
            binds: self.binds.insert(
                fd,
                BindView { queue: self.binds[fd].queue.skip(1), ..self.binds[fd] },
            ),
            ..self
        }
    }

    /// The socket that listens for requests at the address: one that serves every
    /// address, or else the one at that very address.
    pub open spec fn listener(self, dst: SocketAddr) -> Option<Fd> {
        if self.listens_at(any_v4(dst.port)) {
            Some(self.fds[any_v4(dst.port)])
        } else if self.listens_at(any_v6(dst.port)) {
            Some(self.fds[any_v6(dst.port)])
        } else if self.listens_at(dst) {
            Some(self.fds[dst])
        } else {
            None
        }
    }

    /// Whether the request with the number waits at a socket.
    pub open spec fn holds(self, ack: u64) -> bool {
        exists|fd: Fd| #[trigger]
            self.binds.contains_key(fd) && has_request(self.binds[fd].queue, ack)
    }

    /// Whether a socket listens at that very address.
    pub open spec fn listens_at(self, a: SocketAddr) -> bool {
        self.fds.contains_key(a) && self.binds.contains_key(self.fds[a])
    }

    /// Whether no more requests wait at any socket than can.
    pub open spec fn is_bounded(self) -> bool {
        forall|fd: Fd| #[trigger]
            self.binds.contains_key(fd) ==> self.binds[fd].queue.len() <= self.capacity
    }

    /// Whether a request for the address finds room: where a socket listens for it, fewer
    /// requests wait there than can.
    pub open spec fn has_room(self, dst: SocketAddr) -> bool {
        self.listener(dst) matches Some(fd) ==> self.binds[fd].queue.len() < self.capacity
    }

    /// The sockets once a request has come in.
    pub open spec fn requested(self, src: SocketAddr, dst: SocketAddr, syn: Syn) -> TcpView {
        match self.listener(dst) {
            None => self,
            Some(fd) => TcpView {
                binds: self.binds.insert(
                    fd,
                    BindView {
                        queue: self.binds[fd].queue.push((syn, src)),
                        waker: None,
                        ..self.binds[fd]
                    },
                ),
                ..self
            },
        }
    }
}

proof fn lemma_numbered(v: TcpView, addr: SocketAddr, fd: Fd)
    requires
        v.is_numbered(),
    ensures
        v.next_fd < u16::MAX ==> v.bound(addr).is_numbered(),
        v.next_fd < u16::MAX ==> forall|is_found: bool| #[trigger]
            v.added(addr, is_found).is_numbered(),
        v.without(fd).is_numbered(),
{
    assert forall|f: Fd| #[trigger] v.bound(addr).binds.contains_key(f) && v.next_fd
        < u16::MAX implies f.0 < v.next_fd + 1 by {
        assert(f == Fd(v.next_fd) || v.binds.contains_key(f));
    }
    assert forall|is_found: bool| v.next_fd < u16::MAX implies #[trigger] v.added(
        addr,
        is_found,
    ).is_numbered() by {
        let after = v.added(addr, is_found);
        assert forall|f: Fd| #[trigger] after.sockets.contains_key(f) implies f.0 < v.next_fd
            + 1 by {
            assert(f == Fd(v.next_fd) || v.sockets.contains_key(f));
        }
    }
    assert forall|f: Fd| #[trigger] v.without(fd).binds.contains_key(f) implies f.0 < v.next_fd by {
        assert(v.binds.contains_key(f));
    }
    assert forall|f: Fd| #[trigger] v.without(fd).sockets.contains_key(f) implies f.0
        < v.next_fd by {
        assert(v.sockets.contains_key(f));
    }
}

impl Tcp {
    /// Whether the collections are well formed, the next number is a new one, and no more
    /// requests wait at any socket than can.
    pub closed spec fn wf(&self) -> bool {
        &&& self.fds@.wf()
        &&& self.binds@.wf()
        &&& self.sockets@.wf()
        &&& all_fd_keys(self.binds@)
        &&& all_fd_keys(self.sockets@)
        &&& self@.is_numbered()
        &&& self@.is_bounded()
    }

    /// The next number is a new one, and no more requests wait at any socket than can.
    pub proof fn lemma_wf(&self)
        requires
            self.wf(),
        ensures
            self@.is_numbered(),
            self@.is_bounded(),
    {
    }

    /// No socket. So many requests can wait at one that listens.
    pub fn new(capacity: usize) -> (r: Self)
        ensures
            r.wf(),
            r@ == (TcpView {
                fds: Map::empty(),
                next_fd: 0,
                binds: Map::empty(),
                sockets: Map::empty(),
                capacity,
            }),
    {
        let r = Tcp {
            fds: KeyMap::new(),
            next_fd: 0,
            binds: KeyMap::new(),
            sockets: KeyMap::new(),
            capacity,
        };
        assert(r@.fds =~= Map::empty());
        assert(r@.binds =~= Map::empty());
        assert(r@.sockets =~= Map::empty());
        r
    }

    /// The oldest request at the listener, with its origin.
    pub fn front(&self, fd: Fd) -> (r: Option<(Syn, SocketAddr)>)
        requires
            self@.binds.contains_key(fd),
        ensures
            r == (if self@.binds[fd].queue.len() > 0 {
                Some(self@.binds[fd].queue[0])
            } else {
                None
            }),
    {
        match self.binds.get(number_key(fd.0 as u64)) {
            Some(bind) => if bind.buf.len() > 0 {
                Some(bind.buf[0])
            } else {
                None
            },
            None => None,
        }
    }

    /// Accepts the oldest request at the listener, where its origin has taken the
    /// acknowledgement, and returns the socket with its address and its peer's. Where the
    /// origin has not taken it the request is dropped. Where nothing is accepted the task
    /// waits for a further request.
    pub fn accept(&mut self, fd: Fd, public_ip: IpAddr, waker: u64, acked: bool) -> (r: Option<
        (Fd, SocketAddr, SocketAddr),
    >)
        requires
            old(self).wf(),
            old(self)@.binds.contains_key(fd),
            old(self)@.next_fd < u16::MAX,
        ensures
            final(self).wf(),
            ({
                let bind = old(self)@.binds[fd];
                if bind.queue.len() == 0 {
                    r is None && final(self)@ == old(self)@.waiting(fd, waker)
                } else if !acked {
                    r is None && final(self)@ == old(self)@.taken(fd).waiting(fd, waker)
                } else {
                    let origin = bind.queue[0].1;
                    let local = accepted_at(bind.addr, origin, public_ip);
                    &&& r == Some((Fd(old(self)@.next_fd), local, origin))
                    &&& final(self)@ == old(self)@.taken(fd).accepted(local)
                }
            }),
    {
        let key = number_key(fd.0 as u64);
        let ghost before = self.binds@;
        proof {
            lemma_keys();
            assert(before.has(key));
        }
        let bind = match self.binds.get_mut(key) {
            Some(b) => b,
            None => {
                return None;
            },
        };
        let ghost start = bind.shown();
        match bind.buf.pop_front() {
            None => {
                bind.waker = Some(waker);
                let ghost changed = *bind;
                proof {
                    before.lemma_with(key, changed);
                    lemma_shown_with(before, fd, changed);
                    assert(changed.shown() =~= BindView { waker: Some(waker), ..start });
                }
                assert(self@ =~= old(self)@.waiting(fd, waker));
                None
            },
            Some((_, origin)) => {
                if !acked {
                    bind.waker = Some(waker);
                    let ghost changed = *bind;
                    proof {
                        before.lemma_with(key, changed);
                        lemma_shown_with(before, fd, changed);
                        assert(changed.shown() =~= BindView {
                            waker: Some(waker),
                            queue: start.queue.skip(1),
                            ..start
                        });
                    }
                    assert(self@.binds =~= old(self)@.taken(fd).waiting(fd, waker).binds);
                    assert(self@ =~= old(self)@.taken(fd).waiting(fd, waker));
                    return None;
                }
                let mut my_addr = bind.addr;
                let ghost changed = *bind;
                proof {
                    before.lemma_with(key, changed);
                    lemma_shown_with(before, fd, changed);
                    assert(changed.shown() =~= BindView { queue: start.queue.skip(1), ..start });
                }
                if origin.ip.is_loopback() {
                    my_addr.ip = origin.ip;
                }
                if my_addr.ip.is_unspecified() {
                    my_addr.ip = public_ip;
                }
                assert(self@ =~= old(self)@.taken(fd));
                let is_found = self.find_listener(my_addr).is_none();
                let fd = self.add(my_addr, is_found);
                Some((fd, my_addr, origin))
            },
        }
    }

    /// Has a socket listen at the address, unless one is there already.
    pub fn bind(&mut self, addr: SocketAddr) -> (r: Result<Fd, Error>)
        requires
            old(self).wf(),
            old(self)@.next_fd < u16::MAX,
        ensures
            final(self).wf(),
            if old(self)@.fds.contains_key(addr) {
                &&& r == Err::<Fd, Error>(
                    Error { kind: ErrorKind::AddrInUse, cause: Cause::AddressInUse(addr) },
                )
                &&& final(self)@ == old(self)@
            } else {
                let fd = Fd(old(self)@.next_fd);
                &&& r == Ok::<Fd, Error>(fd)
                &&& final(self)@ == old(self)@.bound(addr)
            },
    {
        let fd = Fd(self.next_fd);
        let key = addr.key();
        let ghost fds = self.fds@;
        let ghost binds = self.binds@;
        proof {
            lemma_keys();
            assert(socket_key()(addr) == key);
        }
        match self.fds.get(key) {
            Some(_) => {
                return Err(Error::new(ErrorKind::AddrInUse, Cause::AddressInUse(addr)));
            },
            None => {},
        }
        let bind = Bind { addr, buf: VecDeque::new(), waker: None };
        let ghost value = bind;
        let _ = self.fds.insert(key, fd);
        let _ = self.binds.insert(number_key(fd.0 as u64), bind);
        self.next_fd = self.next_fd + 1;
        proof {
            fds.lemma_with(key, fd);
            binds.lemma_with(number_key(fd.0 as u64), value);
            ordered::lemma_rekeyed_with(fds, socket_key(), addr, fd);
            lemma_shown_with(binds, fd, value);
            assert(value.shown() =~= BindView { addr, queue: Seq::empty(), waker: None });
            assert(self@ =~= old(self)@.bound(addr));
            lemma_numbered(old(self)@, addr, fd);
        }
        Ok(fd)
    }

    /// Adds a connected socket at the address and returns its number.
    pub fn connect(&mut self, local_addr: SocketAddr) -> (r: Fd)
        requires
            old(self).wf(),
            old(self)@.next_fd < u16::MAX,
        ensures
            final(self).wf(),
            r == Fd(old(self)@.next_fd),
            final(self)@ == old(self)@.connected(local_addr),
    {
        self.add(local_addr, true)
    }

    fn add(&mut self, local_addr: SocketAddr, is_found: bool) -> (r: Fd)
        requires
            old(self).wf(),
            old(self)@.next_fd < u16::MAX,
        ensures
            final(self).wf(),
            r == Fd(old(self)@.next_fd),
            final(self)@ == old(self)@.added(local_addr, is_found),
    {
        let fd = Fd(self.next_fd);
        let key = local_addr.key();
        let ghost fds = self.fds@;
        let ghost sockets = self.sockets@;
        self.next_fd = self.next_fd + 1;
        let socket = Socket { local: local_addr };
        let ghost value = socket;
        if is_found {
            let _ = self.fds.insert(key, fd);
        }
        let _ = self.sockets.insert(number_key(fd.0 as u64), socket);
        proof {
            lemma_keys();
            assert(socket_key()(local_addr) == key);
            assert(fd_key()(fd) == number_key(fd.0 as u64));
            fds.lemma_with(key, fd);
            sockets.lemma_with(number_key(fd.0 as u64), value);
            ordered::lemma_rekeyed_with(fds, socket_key(), local_addr, fd);
            ordered::lemma_rekeyed_with(sockets, fd_key(), fd, value);
            assert(self@.sockets =~= old(self)@.added(local_addr, is_found).sockets);
            assert(self@ =~= old(self)@.added(local_addr, is_found));
            lemma_numbered(old(self)@, local_addr, fd);
            lemma_fd_keys(sockets, fd, value);
        }
        fd
    }

    /// Closes a socket for writing, which has no effect yet.
    pub fn shut_wr(&mut self, fd: Fd)
        ensures
            *final(self) == *old(self),
    {
    }

    /// Closes a socket. Its address becomes free, and requests that wait at it are dropped.
    pub fn close(&mut self, fd: Fd)
        requires
            old(self).wf(),
        ensures
            final(self).wf(),
            final(self)@ == old(self)@.without(fd),
    {
        let key = number_key(fd.0 as u64);
        let ghost fds = self.fds@;
        let ghost binds = self.binds@;
        let ghost sockets = self.sockets@;
        proof {
            lemma_keys();
            assert(fd_key()(fd) == key);
            fds.lemma_swapped_out(key);
            binds.lemma_swapped_out(key);
            sockets.lemma_swapped_out(key);
            lemma_fd_keys(binds, fd, binds.map[key]);
            lemma_fd_keys(sockets, fd, sockets.map[key]);
            ordered::lemma_rekeyed_without(binds, fd_key(), fd);
            ordered::lemma_rekeyed_without(sockets, fd_key(), fd);
        }
        let bind = self.binds.swap_remove(key);
        let socket = self.sockets.swap_remove(key);
        let addr = match bind {
            Some(b) => Some(b.addr),
            None => match socket {
                Some(s) => Some(s.local),
                None => None,
            },
        };
        match addr {
            Some(a) => {
                proof {
                    assert(socket_key()(a) == a.key());
                    fds.lemma_swapped_out(a.key());
                    ordered::lemma_rekeyed_without(fds, socket_key(), a);
                }
                let is_here = match self.fds.get(a.key()) {
                    Some(f) => f.0 == fd.0,
                    None => false,
                };
                if is_here {
                    let _ = self.fds.swap_remove(a.key());
                }
            },
            None => {},
        }
        proof {
            assert(self@.binds =~= old(self)@.binds.remove(fd));
            assert(self@.sockets =~= old(self)@.sockets.remove(fd));
            assert(self@ =~= old(self)@.without(fd));
            lemma_numbered(old(self)@, any_v4(0), fd);
        }
    }

    /// Whether a number is left for a further socket.
    pub fn has_descriptor(&self) -> (r: bool)
        ensures
            r == (self@.next_fd < u16::MAX),
    {
        self.next_fd < u16::MAX
    }

    /// The number of connected sockets.
    pub fn stream_count(&self) -> (r: usize)
        requires
            self.wf(),
        ensures
            r == self@.sockets.len(),
    {
        let r: usize = self.sockets.len();
        proof {
            lemma_count(self.sockets@);
        }
        r
    }

    /// Whether the request with the number waits at a socket.
    pub fn holds(&self, ack: u64) -> (r: bool)
        requires
            self.wf(),
        ensures
            r == self@.holds(ack),
    {
        let ghost e = self.binds@;
        let n: usize = self.binds.len();
        let mut i: usize = 0;
        while i < n
            invariant
                i <= n,
                e == self.binds@,
                n == e.order.len(),
                e.wf(),
                all_fd_keys(e),
                forall|k: int|
                    #![trigger e.order[k]]
                    0 <= k < i ==> !has_request(e.nth(k).buf@, ack),
            decreases n - i,
        {
            match self.binds.get_index(i) {
                Some((_, bind)) => {
                    if is_among(&bind.buf, ack) {
                        proof {
                            e.lemma_nth(i as int);
                            let fd = Fd(e.order[i as int].0 as u16);
                            assert(fd_key()(fd) == e.order[i as int]);
                            assert(self@.binds.contains_key(fd));
                            assert(self@.binds[fd].queue == bind.buf@);
                        }
                        return true;
                    }
                },
                None => {},
            }
            i = i + 1;
        }
        proof {
            assert forall|fd: Fd| #[trigger] self@.binds.contains_key(fd) implies !has_request(
                self@.binds[fd].queue,
                ack,
            ) by {
                assert(fd_key()(fd) == number_key(fd.0 as u64));
                let k = e.lemma_index(number_key(fd.0 as u64));
                assert(e.order[k] == number_key(fd.0 as u64));
            }
        }
        false
    }

    fn find_listener(&self, a: SocketAddr) -> (r: Option<Fd>)
        requires
            self.wf(),
        ensures
            r == (if self@.listens_at(a) {
                Some(self@.fds[a])
            } else {
                None
            }),
    {
        proof {
            assert(socket_key()(a) == a.key());
        }
        match self.fds.get(a.key()) {
            None => None,
            Some(fd) => {
                proof {
                    assert(fd_key()(*fd) == number_key(fd.0 as u64));
                }
                match self.binds.get(number_key(fd.0 as u64)) {
                    Some(_) => Some(*fd),
                    None => None,
                }
            },
        }
    }

    /// The socket that listens for requests at the address.
    fn find(&self, dst: SocketAddr) -> (r: Option<Fd>)
        requires
            self.wf(),
        ensures
            r == self@.listener(dst),
    {
        let at_v4 = SocketAddr::new(IpAddr::V4(Ipv4Addr::unspecified()), dst.port);
        let at_v6 = SocketAddr::new(IpAddr::V6(Ipv6Addr::unspecified()), dst.port);
        let mut found = self.find_listener(at_v4);
        if found.is_none() {
            found = self.find_listener(at_v6);
        }
        if found.is_none() {
            found = self.find_listener(dst);
        }
        found
    }

    /// Whether a request for the address finds room.
    pub fn has_room(&self, dst: SocketAddr) -> (r: bool)
        requires
            self.wf(),
        ensures
            r == self@.has_room(dst),
    {
        match self.find(dst) {
            None => true,
            Some(fd) => {
                proof {
                    assert(fd_key()(fd) == number_key(fd.0 as u64));
                }
                match self.binds.get(number_key(fd.0 as u64)) {
                    None => true,
                    Some(bind) => bind.buf.len() < self.capacity,
                }
            },
        }
    }

    /// Takes in a request for a connection: it waits at the socket that listens for it, and
    /// is dropped where there is none. Returns the task that is to be woken.
    pub fn receive_from_network(&mut self, src: SocketAddr, dst: SocketAddr, segment: Segment) -> (r:
        Option<u64>)
        requires
            old(self).wf(),
            segment is Syn,
            old(self)@.has_room(dst),
        ensures
            final(self).wf(),
            final(self)@ == old(self)@.requested(src, dst, segment->Syn_0),
            r == (match old(self)@.listener(dst) {
                Some(fd) => old(self)@.binds[fd].waker,
                None => None,
            }),
    {
        let syn = match segment {
            Segment::Syn(syn) => syn,
            _ => {
                return None;
            },
        };
        match self.find(dst) {
            None => None,
            Some(fd) => {
                let key = number_key(fd.0 as u64);
                let ghost before = self.binds@;
                proof {
                    assert(fd_key()(fd) == key);
                    assert(before.has(key));
                }
                match self.binds.get_mut(key) {
                    None => None,
                    Some(bind) => {
                        let ghost start = bind.shown();
                        let woken = bind.waker;
                        bind.buf.push_back((syn, src));
                        bind.waker = None;
                        let ghost changed = *bind;
                        proof {
                            before.lemma_with(key, changed);
                            lemma_shown_with(before, fd, changed);
                            assert(changed.shown() =~= BindView {
                                queue: start.queue.push((syn, src)),
                                waker: None,
                                ..start
                            });
                        }
                        assert(self@ =~= old(self)@.requested(src, dst, syn));
                        woken
                    },
                }
            },
        }
    }
}

fn is_among(queue: &VecDeque<(Syn, SocketAddr)>, ack: u64) -> (r: bool)
    ensures
        r == has_request(queue@, ack),
{
    let mut i: usize = 0;
    while i < queue.len()
        invariant
            i <= queue@.len(),
            forall|k: int| 0 <= k < i ==> (#[trigger] queue@[k]).0.ack != ack,
        decreases queue.len() - i,
    {
        if queue[i].0.ack == ack {
            return true;
        }
        i = i + 1;
    }
    false
}

/// Whether each key is that of a socket's number.
spec fn all_fd_keys<V>(e: Entries<Key, V>) -> bool {
    forall|k: Key| #[trigger] e.has(k) ==> k.0 <= 0xffff && k.1 == 0 && k.2 == 0
}

/// There are as many sockets as entries.
proof fn lemma_count(e: Entries<Key, Socket>)
    requires
        e.wf(),
        all_fd_keys(e),
    ensures
        shown_sockets(e).len() == e.order.len(),
{
    let fds = e.order.map_values(|k: Key| Fd(k.0 as u16));
    assert forall|i: int, j: int| 0 <= i < fds.len() && 0 <= j < fds.len() && i != j implies fds[i]
        != fds[j] by {
        e.lemma_nth(i);
        e.lemma_nth(j);
        assert(e.order[i] != e.order[j]);
    }
    fds.unique_seq_to_set();
    assert(fds.to_set() =~= shown_sockets(e).dom()) by {
        assert forall|fd: Fd| fds.contains(fd) <==> e.has(fd_key()(fd)) by {
            if fds.contains(fd) {
                let i = choose|i: int| 0 <= i < fds.len() && fds[i] == fd;
                e.lemma_nth(i);
                assert(e.order[i] == fd_key()(fd));
            }
            if e.has(fd_key()(fd)) {
                let i = e.lemma_index(fd_key()(fd));
                assert(fds[i] == fd);
            }
        }
    }
}

/// A request waits, last in line, where a socket listens for it, and leaves everything as
/// it was where none does.
pub proof fn law_request_waits_in_line(v: TcpView, src: SocketAddr, dst: SocketAddr, syn: Syn)
    ensures
        match v.listener(dst) {
            Some(fd) => {
                &&& v.requested(src, dst, syn).binds[fd].queue == v.binds[fd].queue.push((syn, src))
                &&& forall|other: Fd|
                    other != fd && v.binds.contains_key(other) ==> v.requested(
                        src,
                        dst,
                        syn,
                    ).binds[other] == #[trigger] v.binds[other]
            },
            None => v.requested(src, dst, syn) == v,
        },
{
}

/// No more requests wait at any socket than can, once a further one has come in that found
/// room.
pub proof fn law_requests_are_bounded(v: TcpView, src: SocketAddr, dst: SocketAddr, syn: Syn)
    requires
        v.is_bounded(),
        v.has_room(dst),
    ensures
        v.requested(src, dst, syn).is_bounded(),
{
    let after = v.requested(src, dst, syn);
    assert forall|fd: Fd| #[trigger] after.binds.contains_key(fd) implies after.binds[fd].queue.len()
        <= v.capacity by {
        assert(v.binds.contains_key(fd));
    }
}

/// A socket that is bound to every address of the host is found by a request for any of
/// them on its port, the one for long addresses unless one for short addresses is there.
pub proof fn law_wildcard_serves_every_address(v: TcpView, dst: SocketAddr)
    ensures
        v.bound(any_v4(dst.port)).listener(dst) == Some(Fd(v.next_fd)),
        !v.fds.contains_key(any_v4(dst.port)) ==> v.bound(any_v6(dst.port)).listener(dst) == Some(
            Fd(v.next_fd),
        ),
{
}

/// A request for an address at which no socket listens, and on whose port none serves every
/// address, is dropped: a socket at another address is not reached.
pub proof fn law_other_address_is_not_reached(
    v: TcpView,
    src: SocketAddr,
    dst: SocketAddr,
    syn: Syn,
)
    requires
        forall|a: SocketAddr|
            #[trigger] v.listens_at(a) && a.port == dst.port ==> !a.ip.unspecified() && a != dst,
    ensures
        v.requested(src, dst, syn) == v,
{
    assert(!v.listens_at(any_v4(dst.port)));
    assert(!v.listens_at(any_v6(dst.port)));
    assert(!v.listens_at(dst));
}

/// A request waits once it has come in where a socket listens for it. Where none does it is
/// gone.
pub proof fn law_unheard_request_is_gone(
    v: TcpView,
    src: SocketAddr,
    dst: SocketAddr,
    ack: u64,
)
    requires
        !v.holds(ack),
    ensures
        v.requested(src, dst, Syn { ack }).holds(ack) == (v.listener(dst) is Some),
{
    match v.listener(dst) {
        Some(fd) => {
            let after = v.requested(src, dst, Syn { ack });
            let queue = after.binds[fd].queue;
            assert(after.binds.contains_key(fd));
            assert(queue[queue.len() - 1].0.ack == ack);
        },
        None => {},
    }
}

/// A listener stays where it was when a request is accepted.
pub proof fn law_listeners_stay(v: TcpView, fd: Fd, local: SocketAddr, dst: SocketAddr)
    requires
        v.is_numbered(),
        v.binds.contains_key(fd),
    ensures
        v.taken(fd).accepted(local).listener(dst) == v.listener(dst),
{
    let after = v.taken(fd).accepted(local);
    assert(!v.binds.contains_key(Fd(v.next_fd)));
    assert forall|a: SocketAddr| #[trigger] after.listens_at(a) == v.listens_at(a) by {
        assert(v.taken(fd).listens_at(a) == v.listens_at(a));
    }
}

/// What listens and is closed again leaves no trace but its number.
pub proof fn law_closing_frees_the_address(v: TcpView, addr: SocketAddr)
    requires
        v.is_numbered(),
        v.next_fd < u16::MAX,
        !v.fds.contains_key(addr),
    ensures
        v.bound(addr).without(Fd(v.next_fd)) == (TcpView {
            next_fd: (v.next_fd + 1) as u16,
            ..v
        }),
{
    let fd = Fd(v.next_fd);
    assert(!v.binds.contains_key(fd));
    assert(!v.sockets.contains_key(fd));
    let after = v.bound(addr).without(fd);
    assert(after.fds =~= v.fds);
    assert(after.binds =~= v.binds);
    assert(after.sockets =~= v.sockets);
}

} // verus!
