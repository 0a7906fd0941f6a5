//! Connections that are layered over the messages of a host.
use crate::addr;
use crate::addr::{Key, SocketAddr};
use crate::error::{Cause, Error, ErrorKind};
use crate::message::Message;
use crate::ordered;
use crate::ordered::{number_key, Entries, KeyMap};
use vstd::prelude::*;

verus! {

/// A part of a connection's traffic.
#[derive(Debug)]
pub enum Segment<M> {
    /// Asks for a connection.
    Syn(u64),
    /// Accepts a connection.
    SynAck(u64),
    /// A message over a connection.
    Data(u64, M),
    /// The connection is reset.
    Rst(u64),
}

impl<M: Message> Message for Segment<M> {
    open spec fn json(&self) -> Seq<u8> {
        match *self {
            Segment::Syn(_) => seq![83u8, 121u8, 110u8],
            Segment::SynAck(_) => seq![83u8, 121u8, 110u8, 65u8, 99u8, 107u8],
            Segment::Data(_, m) => m.json(),
            Segment::Rst(_) => seq![82u8, 115u8, 116u8],
        }
    }

    fn write_json(&self, dst: &mut Vec<u8>) {
        let ghost before = dst@;
        match self {
            Segment::Syn(_) => {
                dst.push(83);
                dst.push(121);
                dst.push(110);
            },
            Segment::SynAck(_) => {
                dst.push(83);
                dst.push(121);
                dst.push(110);
                dst.push(65);
                dst.push(99);
                dst.push(107);
            },
            Segment::Data(_, m) => {
                m.write_json(dst);
            },
            Segment::Rst(_) => {
                dst.push(82);
                dst.push(115);
                dst.push(116);
            },
        }
        assert(dst@ =~= before + self.json());
    }
}

/// What tells a connection from others.
#[derive(Clone, Copy, Debug, PartialEq, Eq, Hash, Structural)]
pub struct ConnectionInfo {
    /// The number that the host which asked for it gave it.
    pub id: u64,
    /// The address of the peer.
    pub peer: SocketAddr,
}

impl ConnectionInfo {
    /// The key of the connection.
    pub open spec fn spec_key(self) -> Key {
        (
            self.peer.key().0,
            (self.peer.port as u128 * 8 + self.peer.ip.key().2 as u128) as u128,
            self.id,
        )
    }

    /// The key of the connection.
    #[verifier::when_used_as_spec(spec_key)]
    pub fn key(self) -> (r: Key)
        ensures
            r == self.spec_key(),
    {
        let kind: u128 = match self.peer.ip {
            addr::IpAddr::V4(_) => 4,
            addr::IpAddr::V6(_) => 6,
        };
        (self.peer.key().0, self.peer.port as u128 * 8 + kind, self.id)
    }
}

/// How far a connection is.
#[derive(Clone, Copy, Debug, PartialEq, Eq, Structural)]
pub enum ConnectionState {
    /// It was asked for, and is not accepted yet.
    New {
        /// The index of what the program sends over it.
        recv_idx: usize,
    },
    /// The peer has asked for it, and the program has not accepted it yet.
    Queued,
    /// Messages go both ways.
    Connected {
        /// The index of what the program sends over it.
        recv_idx: usize,
    },
}

/// The connections of a host.
pub struct Connections {
    by_info: KeyMap<(ConnectionInfo, ConnectionState)>,
    by_idx: KeyMap<ConnectionInfo>,
}

/// The connections of a host.
#[verifier::ext_equal]
pub struct ConnectionsView {
    /// The connections in their order, and how far each is.
    pub states: Entries<ConnectionInfo, ConnectionState>,
    /// The connection of each index.
    pub by_idx: Map<usize, ConnectionInfo>,
}

/// The key of a connection.
pub open spec fn info_key() -> spec_fn(ConnectionInfo) -> Key {
    |i: ConnectionInfo| i.key()
}

/// The key of an index.
pub open spec fn idx_key() -> spec_fn(usize) -> Key {
    |i: usize| number_key(i as u64)
}

proof fn lemma_keys()
    ensures
        ordered::is_faithful(info_key()),
        ordered::is_faithful(idx_key()),
{
    assert forall|a: ConnectionInfo, b: ConnectionInfo|
        #[trigger] info_key()(a) == #[trigger] info_key()(b) implies a == b by {
        addr::lemma_ip_keys(a.peer.ip, b.peer.ip);
        assert(a.peer.ip.key().2 == 4 || a.peer.ip.key().2 == 6);
        assert(b.peer.ip.key().2 == 4 || b.peer.ip.key().2 == 6);
    }
}

type Held = (ConnectionInfo, ConnectionState);

spec fn held_wf(e: Entries<Key, Held>) -> bool {
    &&& e.wf()
    &&& forall|k: Key| #[trigger] e.has(k) ==> e.map[k].0.key() == k
}

spec fn shown(e: Entries<Key, Held>) -> Entries<ConnectionInfo, ConnectionState> {
    Entries {
        order: e.order.map_values(|k: Key| e.map[k].0),
        map: ordered::rekeyed(e, info_key()).map_values(|h: Held| h.1),
    }
}

proof fn lemma_shown_has(e: Entries<Key, Held>, info: ConnectionInfo)
    requires
        held_wf(e),
    ensures
        shown(e).has(info) <==> e.has(info.key()),
        e.has(info.key()) ==> shown(e).map[info] == e.map[info.key()].1,
        e.has(info.key()) ==> e.map[info.key()].0 == info,
{
    lemma_keys();
    assert(info_key()(info) == info.key());
    if e.has(info.key()) {
        assert(info_key()(e.map[info.key()].0) == info_key()(info));
    }
}

proof fn lemma_shown_with(e: Entries<Key, Held>, info: ConnectionInfo, state: ConnectionState)
    requires
        held_wf(e),
    ensures
        held_wf(e.with(info.key(), (info, state))),
        shown(e.with(info.key(), (info, state))) == shown(e).with(info, state),
{
    lemma_keys();
    let after = e.with(info.key(), (info, state));
    e.lemma_with(info.key(), (info, state));
    ordered::lemma_rekeyed_with(e, info_key(), info, (info, state));
    assert(info_key()(info) == info.key());
    lemma_shown_has(e, info);
    assert(shown(after).map =~= shown(e).with(info, state).map);
    assert forall|k: Key| #[trigger] after.has(k) implies after.map[k].0.key() == k by {
        if k != info.key() {
            assert(e.has(k));
        }
    }
    assert(shown(after).order =~= shown(e).with(info, state).order) by {
        assert forall|i: int| 0 <= i < e.order.len() implies #[trigger] shown(after).order[i]
            == shown(e).order[i] by {
            e.lemma_nth(i);
        }
    }
}

proof fn lemma_shown_without(e: Entries<Key, Held>, info: ConnectionInfo)
    requires
        held_wf(e),
    ensures
        held_wf(e.swapped_out(info.key())),
        shown(e.swapped_out(info.key())) == shown(e).swapped_out(info),
{
    lemma_keys();
    let after = e.swapped_out(info.key());
    e.lemma_swapped_out(info.key());
    ordered::lemma_rekeyed_without(e, info_key(), info);
    assert(info_key()(info) == info.key());
    lemma_shown_has(e, info);
    assert(shown(after).map =~= shown(e).swapped_out(info).map);
    assert forall|k: Key| #[trigger] after.has(k) implies after.map[k].0.key() == k by {
        assert(e.has(k));
    }
    if e.has(info.key()) {
        let i = e.lemma_index(info.key());
        assert(shown(e).order[i] == info);
        assert(shown(e).order.contains(info));
        let j = shown(e).order.index_of(info);
        assert(shown(e).order[j] == info);
        e.lemma_nth(j);
        assert(e.order[j] == info.key());
        assert(i == j);
        let n = e.order.len() - 1;
        assert forall|k: int| 0 <= k < n implies #[trigger] shown(after).order[k]
            == shown(e).swapped_out(info).order[k] by {
            e.lemma_nth(k);
            e.lemma_nth(n);
            after.lemma_nth(k);
            if k != i {
                assert(after.order[k] == e.order[k]);
                assert(e.order[k] != info.key());
            } else {
                assert(after.order[k] == e.order[n]);
                assert(e.order[n] != info.key());
            }
        }
        assert(shown(after).order =~= shown(e).swapped_out(info).order);
    }
}

proof fn lemma_shown_wf(e: Entries<Key, Held>)
    requires
        held_wf(e),
    ensures
        shown(e).wf(),
{
    lemma_keys();
    let s = shown(e);
    assert forall|i: int, j: int|
        0 <= i < s.order.len() && 0 <= j < s.order.len() && i != j implies s.order[i]
        != s.order[j] by {
        e.lemma_nth(i);
        e.lemma_nth(j);
        assert(e.order[i] != e.order[j]);
    }
    assert forall|info: ConnectionInfo| #[trigger] s.map.contains_key(info)
        <==> s.order.contains(info) by {
        lemma_shown_has(e, info);
        if s.has(info) {
            let i = e.lemma_index(info.key());
            assert(s.order[i] == info);
        }
        if s.order.contains(info) {
            let i = choose|i: int| 0 <= i < s.order.len() && s.order[i] == info;
            e.lemma_nth(i);
        }
    }
}

impl View for Connections {
    type V = ConnectionsView;

    closed spec fn view(&self) -> ConnectionsView {
        ConnectionsView {
            states: shown(self.by_info@),
            by_idx: ordered::rekeyed(self.by_idx@, idx_key()),
        }
    }
}

impl ConnectionsView {
    /// Whether the connection is so far.
    pub open spec fn is_at(self, info: ConnectionInfo, state: ConnectionState) -> bool {
        self.states.has(info) && self.states.map[info] == state
    }

    /// Whether messages go both ways.
    pub open spec fn is_connected(self, info: ConnectionInfo) -> bool {
        self.states.has(info) && self.states.map[info] is Connected
    }

    /// The connections with one accepted by the program.
    pub open spec fn accepted(self, info: ConnectionInfo, idx: usize) -> ConnectionsView {
        ConnectionsView {
            states: self.states.swapped_out(info).with(
                info,
                ConnectionState::Connected { recv_idx: idx },
            ),
            by_idx: self.by_idx.insert(idx, info),
        }
    }

    /// The connections with one that the peer has asked for.
    pub open spec fn queued(self, info: ConnectionInfo) -> ConnectionsView {
        ConnectionsView { states: self.states.with(info, ConnectionState::Queued), ..self }
    }

    /// The connections with one that the program has asked for.
    pub open spec fn asked(self, info: ConnectionInfo, idx: usize) -> ConnectionsView {
        ConnectionsView {
            states: self.states.with(info, ConnectionState::New { recv_idx: idx }),
            by_idx: self.by_idx.insert(idx, info),
        }
    }

    /// The connections with one accepted by the peer.
    pub open spec fn finished(self, info: ConnectionInfo) -> ConnectionsView {
        ConnectionsView {
            states: self.states.swapped_out(info).with(
                info,
                ConnectionState::Connected { recv_idx: self.states.map[info]->New_recv_idx },
            ),
            ..self
        }
    }

    /// The connection of the index, where it has not been reset.
    pub open spec fn open_at(self, idx: usize) -> Option<ConnectionInfo> {
        if self.by_idx.contains_key(idx) && self.states.has(self.by_idx[idx]) {
            Some(self.by_idx[idx])
        } else {
            None
        }
    }

    /// The connections once the program has given up that of the index.
    pub open spec fn deregistered(self, idx: usize) -> ConnectionsView {
        if self.by_idx.contains_key(idx) {
            ConnectionsView {
                states: self.states.swapped_out(self.by_idx[idx]),
                by_idx: self.by_idx.remove(idx),
            }
        } else {
            self
        }
    }

    /// The connections once the peer has reset one.
    pub open spec fn disconnected(self, info: ConnectionInfo) -> ConnectionsView {
        ConnectionsView { states: self.states.swapped_out(info), ..self }
    }

    /// Those of the first `n` connections that are told that they are reset.
    pub open spec fn to_reset(self, n: int) -> Seq<ConnectionInfo>
        decreases n,
    {
        if n <= 0 {
            Seq::empty()
        } else {
            let rest = self.to_reset(n - 1);
            let info = self.states.order[n - 1];
            if self.states.map[info] is New {
                rest
            } else {
                rest.push(info)
            }
        }
    }
}

impl Connections {
    /// Whether the collections are well formed.
    pub closed spec fn wf(&self) -> bool {
        held_wf(self.by_info@) && self.by_idx@.wf()
    }

    /// The well formed connections as they are seen.
    pub proof fn lemma_wf(&self)
        requires
            self.wf(),
        ensures
            self@.states.wf(),
    {
        lemma_shown_wf(self.by_info@);
    }

    /// No connection.
    pub fn new() -> (r: Connections)
        ensures
            r.wf(),
            r@ == (ConnectionsView { states: Entries::none(), by_idx: Map::empty() }),
    {
        let r = Connections { by_info: KeyMap::new(), by_idx: KeyMap::new() };
        assert(r@.states =~= Entries::none());
        assert(r@.by_idx =~= Map::empty());
        r
    }

    fn put(&mut self, info: ConnectionInfo, state: ConnectionState)
        requires
            old(self).wf(),
        ensures
            final(self).wf(),
            final(self)@ == (ConnectionsView {
                states: old(self)@.states.with(info, state),
                ..old(self)@
            }),
    {
        let ghost before = self.by_info@;
        let _ = self.by_info.insert(info.key(), (info, state));
        proof {
            lemma_shown_with(before, info, state);
        }
    }

    fn take(&mut self, info: ConnectionInfo) -> (r: Option<ConnectionState>)
        requires
            old(self).wf(),
        ensures
            final(self).wf(),
            final(self)@ == (ConnectionsView {
                states: old(self)@.states.swapped_out(info),
                ..old(self)@
            }),
            r == (if old(self)@.states.has(info) {
                Some(old(self)@.states.map[info])
            } else {
                None
            }),
    {
        let ghost before = self.by_info@;
        proof {
            lemma_shown_has(before, info);
            lemma_shown_without(before, info);
        }
        match self.by_info.swap_remove(info.key()) {
            Some(held) => Some(held.1),
            None => None,
        }
    }

    fn put_idx(&mut self, idx: usize, info: ConnectionInfo)
        requires
            old(self).wf(),
        ensures
            final(self).wf(),
            final(self)@ == (ConnectionsView {
                by_idx: old(self)@.by_idx.insert(idx, info),
                ..old(self)@
            }),
    {
        let ghost before = self.by_idx@;
        let _ = self.by_idx.insert(number_key(idx as u64), info);
        proof {
            lemma_keys();
            before.lemma_with(number_key(idx as u64), info);
            assert(idx_key()(idx) == number_key(idx as u64));
            ordered::lemma_rekeyed_with(before, idx_key(), idx, info);
        }
    }

    /// How far the connection is.
    pub fn state(&self, info: ConnectionInfo) -> (r: Option<ConnectionState>)
        requires
            self.wf(),
        ensures
            r == (if self@.states.has(info) {
                Some(self@.states.map[info])
            } else {
                None
            }),
    {
        proof {
            lemma_shown_has(self.by_info@, info);
        }
        match self.by_info.get(info.key()) {
            Some(held) => Some(held.1),
            None => None,
        }
    }

    /// Accepts a connection that the peer has asked for. What the program sends over it has
    /// the index.
    pub fn accept(&mut self, info: ConnectionInfo, idx: usize)
        requires
            old(self).wf(),
            old(self)@.is_at(info, ConnectionState::Queued),
        ensures
            final(self).wf(),
            final(self)@ == old(self)@.accepted(info, idx),
    {
        let _ = self.take(info);
        self.put_idx(idx, info);
        self.put(info, ConnectionState::Connected { recv_idx: idx });
    }

    /// Takes in a request of a peer.
    pub fn register_for_accept(&mut self, info: ConnectionInfo)
        requires
            old(self).wf(),
            !old(self)@.states.has(info),
        ensures
            final(self).wf(),
            final(self)@ == old(self)@.queued(info),
    {
        self.put(info, ConnectionState::Queued);
    }

    /// Adds a connection that the program asks for. What the program sends over it has the
    /// index.
    pub fn connect(&mut self, id: u64, dst: SocketAddr, idx: usize)
        requires
            old(self).wf(),
        ensures
            final(self).wf(),
            final(self)@ == old(self)@.asked(ConnectionInfo { id, peer: dst }, idx),
    {
        let info = ConnectionInfo { id, peer: dst };
        self.put_idx(idx, info);
        self.put(info, ConnectionState::New { recv_idx: idx });
    }

    /// Notes that the peer has accepted a connection.
    pub fn finish_connect(&mut self, info: ConnectionInfo)
        requires
            old(self).wf(),
            old(self)@.states.has(info),
            old(self)@.states.map[info] is New,
        ensures
            final(self).wf(),
            final(self)@ == old(self)@.finished(info),
    {
        match self.take(info) {
            Some(ConnectionState::New { recv_idx }) => {
                self.put(info, ConnectionState::Connected { recv_idx });
            },
            _ => {},
        }
    }

    /// Gives up the connection of the index, and returns it unless it has been reset.
    pub fn deregister(&mut self, idx: usize) -> (r: Option<ConnectionInfo>)
        requires
            old(self).wf(),
        ensures
            final(self).wf(),
            r == old(self)@.open_at(idx),
            final(self)@ == old(self)@.deregistered(idx),
    {
        let ghost before = self.by_idx@;
        let key = number_key(idx as u64);
        proof {
            lemma_keys();
            assert(idx_key()(idx) == key);
            before.lemma_swapped_out(key);
            ordered::lemma_rekeyed_without(before, idx_key(), idx);
        }
        match self.by_idx.swap_remove(key) {
            Some(info) => match self.take(info) {
                Some(_) => Some(info),
                None => None,
            },
            None => {
                assert(self@ =~= old(self)@);
                None
            },
        }
    }

    /// Notes that the peer has reset the connection. Returns the index of what the program
    /// sends over it, which is to be closed.
    pub fn disconnect(&mut self, info: ConnectionInfo) -> (r: Option<usize>)
        requires
            old(self).wf(),
        ensures
            final(self).wf(),
            final(self)@ == old(self)@.disconnected(info),
            r == (if old(self)@.states.has(info) {
                match old(self)@.states.map[info] {
                    ConnectionState::New { recv_idx } => Some(recv_idx),
                    ConnectionState::Connected { recv_idx } => Some(recv_idx),
                    ConnectionState::Queued => None,
                }
            } else {
                None
            }),
    {
        match self.take(info) {
            Some(ConnectionState::New { recv_idx }) => Some(recv_idx),
            Some(ConnectionState::Connected { recv_idx }) => Some(recv_idx),
            _ => None,
        }
    }
}

/// A part of a connection's traffic that is to be sent.
pub struct Outgoing<M> {
    /// Where it goes.
    pub dst: SocketAddr,
    /// What it is.
    pub segment: Segment<M>,
}

/// What is to be done with what came in.
pub enum Routed<M> {
    /// The program is offered the connection.
    Offer(ConnectionInfo),
    /// The program that asked for the connection has it.
    Established(ConnectionInfo),
    /// The program gets the message.
    Deliver(ConnectionInfo, M),
    /// What the program sends over the connection is closed, where the program has it.
    Close(Option<usize>),
}

/// What happens to the connections of a host.
pub enum Event<M> {
    /// The program accepts a connection. What it sends over it has the index.
    Accept(ConnectionInfo, usize),
    /// The program asks for a connection to the address. What it sends over it has the index.
    Connect(SocketAddr, usize),
    /// The program sends a message.
    Send(ConnectionInfo, M),
    /// The program gives up the connection of the index.
    Drop(usize),
    /// Something comes in from the address.
    Receive(SocketAddr, Segment<M>),
}

/// What is to be done next.
pub enum Step<M> {
    /// Nothing.
    Idle,
    /// Something is to be sent.
    Send(Outgoing<M>),
    /// Something that came in is to be passed on.
    Route(Routed<M>),
}

/// The connections of a host, and the number of the last one that it asked for.
pub struct Inner {
    /// The number of the last connection that the host asked for.
    pub ctr: u64,
    /// The connections.
    pub connections: Connections,
}

/// Whether what came in fits how far its connection is.
pub open spec fn is_expected<M>(v: ConnectionsView, from: SocketAddr, seg: Segment<M>) -> bool {
    match seg {
        Segment::Syn(id) => !v.states.has(ConnectionInfo { id, peer: from }),
        Segment::SynAck(id) => {
            let info = ConnectionInfo { id, peer: from };
            v.states.has(info) && v.states.map[info] is New
        },
        Segment::Data(id, _) => v.is_connected(ConnectionInfo { id, peer: from }),
        Segment::Rst(_) => true,
    }
}

/// Whether the event fits how far its connection is.
pub open spec fn can_happen<M>(inner: Inner, event: Event<M>) -> bool {
    match event {
        Event::Accept(info, _) => inner.connections@.is_at(info, ConnectionState::Queued),
        Event::Connect(_, _) => inner.ctr < u64::MAX,
        Event::Send(info, _) => inner.connections@.is_connected(info),
        Event::Drop(_) => true,
        Event::Receive(from, seg) => is_expected(inner.connections@, from, seg),
    }
}

/// The connections after the event.
pub open spec fn after_event<M>(inner: Inner, event: Event<M>) -> ConnectionsView {
    let v = inner.connections@;
    match event {
        Event::Accept(info, idx) => v.accepted(info, idx),
        Event::Connect(dst, idx) => v.asked(
            ConnectionInfo { id: (inner.ctr + 1) as u64, peer: dst },
            idx,
        ),
        Event::Send(_, _) => v,
        Event::Drop(idx) => v.deregistered(idx),
        Event::Receive(from, Segment::Syn(id)) => v.queued(ConnectionInfo { id, peer: from }),
        Event::Receive(from, Segment::SynAck(id)) => v.finished(ConnectionInfo { id, peer: from }),
        Event::Receive(_, Segment::Data(_, _)) => v,
        Event::Receive(from, Segment::Rst(id)) => v.disconnected(ConnectionInfo { id, peer: from }),
    }
}

/// What is to be done after the event.
pub open spec fn step_after<M>(inner: Inner, event: Event<M>) -> Step<M> {
    let v = inner.connections@;
    match event {
        Event::Accept(info, _) => Step::Send(
            Outgoing { dst: info.peer, segment: Segment::SynAck(info.id) },
        ),
        Event::Connect(dst, _) => Step::Send(
            Outgoing { dst, segment: Segment::Syn((inner.ctr + 1) as u64) },
        ),
        Event::Send(info, m) => Step::Send(
            Outgoing { dst: info.peer, segment: Segment::Data(info.id, m) },
        ),
        Event::Drop(idx) => match v.open_at(idx) {
            Some(info) => Step::Send(Outgoing { dst: info.peer, segment: Segment::Rst(info.id) }),
            None => Step::Idle,
        },
        Event::Receive(from, Segment::Syn(id)) => Step::Route(
            Routed::Offer(ConnectionInfo { id, peer: from }),
        ),
        Event::Receive(from, Segment::SynAck(id)) => Step::Route(
            Routed::Established(ConnectionInfo { id, peer: from }),
        ),
        Event::Receive(from, Segment::Data(id, m)) => Step::Route(
            Routed::Deliver(ConnectionInfo { id, peer: from }, m),
        ),
        Event::Receive(from, Segment::Rst(id)) => {
            let info = ConnectionInfo { id, peer: from };
            Step::Route(
                Routed::Close(
                    if v.states.has(info) {
                        match v.states.map[info] {
                            ConnectionState::New { recv_idx } => Some(recv_idx),
                            ConnectionState::Connected { recv_idx } => Some(recv_idx),
                            ConnectionState::Queued => None,
                        }
                    } else {
                        None
                    },
                ),
            )
        },
    }
}

impl Inner {
    /// No connection.
    pub fn new() -> (r: Inner)
        ensures
            r.ctr == 0,
            r.connections.wf(),
            r.connections@ == (ConnectionsView { states: Entries::none(), by_idx: Map::empty() }),
    {
        Inner { ctr: 0, connections: Connections::new() }
    }

    /// Accepts a connection that the peer has asked for.
    pub fn accept<M>(&mut self, info: ConnectionInfo, idx: usize) -> (r: Outgoing<M>)
        requires
            old(self).connections.wf(),
            old(self).connections@.is_at(info, ConnectionState::Queued),
        ensures
            final(self).connections.wf(),
            final(self).connections@ == old(self).connections@.accepted(info, idx),
            final(self).ctr == old(self).ctr,
            r == (Outgoing::<M> { dst: info.peer, segment: Segment::SynAck(info.id) }),
    {
        self.connections.accept(info, idx);
        Outgoing { dst: info.peer, segment: Segment::SynAck(info.id) }
    }

    /// Asks for a connection to the address, which has the next number.
    pub fn connect<M>(&mut self, dst: SocketAddr, idx: usize) -> (r: Outgoing<M>)
        requires
            old(self).connections.wf(),
            old(self).ctr < u64::MAX,
        ensures
            final(self).connections.wf(),
            final(self).ctr == old(self).ctr + 1,
            final(self).connections@ == old(self).connections@.asked(
                ConnectionInfo { id: (old(self).ctr + 1) as u64, peer: dst },
                idx,
            ),
            r == (Outgoing::<M> { dst, segment: Segment::Syn((old(self).ctr + 1) as u64) }),
    {
        self.ctr = self.ctr + 1;
        let id: u64 = self.ctr;
        self.connections.connect(id, dst, idx);
        Outgoing { dst, segment: Segment::Syn(id) }
    }

    /// Sends a message over a connection.
    pub fn send<M>(&self, info: ConnectionInfo, message: M) -> (r: Outgoing<M>)
        requires
            self.connections@.is_connected(info),
        ensures
            r == (Outgoing { dst: info.peer, segment: Segment::Data(info.id, message) }),
    {
        Outgoing { dst: info.peer, segment: Segment::Data(info.id, message) }
    }

    /// Takes in what came from the address.
    pub fn route<M>(&mut self, from: SocketAddr, seg: Segment<M>) -> (r: Routed<M>)
        requires
            old(self).connections.wf(),
            is_expected(old(self).connections@, from, seg),
        ensures
            final(self).connections.wf(),
            final(self).ctr == old(self).ctr,
            final(self).connections@ == after_event(*old(self), Event::Receive(from, seg)),
            Step::Route(r) == step_after(*old(self), Event::Receive(from, seg)),
    {
        match seg {
            Segment::Syn(id) => {
                let info = ConnectionInfo { id, peer: from };
                self.connections.register_for_accept(info);
                Routed::Offer(info)
            },
            Segment::SynAck(id) => {
                let info = ConnectionInfo { id, peer: from };
                self.connections.finish_connect(info);
                Routed::Established(info)
            },
            Segment::Data(id, message) => Routed::Deliver(
                ConnectionInfo { id, peer: from },
                message,
            ),
            Segment::Rst(id) => {
                let idx = self.connections.disconnect(ConnectionInfo { id, peer: from });
                Routed::Close(idx)
            },
        }
    }

    /// Gives up the connection of the index, and tells the peer unless it has reset it.
    pub fn rst<M>(&mut self, idx: usize) -> (r: Option<Outgoing<M>>)
        requires
            old(self).connections.wf(),
        ensures
            final(self).connections.wf(),
            final(self).ctr == old(self).ctr,
            final(self).connections@ == old(self).connections@.deregistered(idx),
            r == (match old(self).connections@.open_at(idx) {
                Some(info) => Some(
                    Outgoing::<M> { dst: info.peer, segment: Segment::Rst(info.id) },
                ),
                None => None,
            }),
    {
        match self.connections.deregister(idx) {
            Some(info) => Some(Outgoing { dst: info.peer, segment: Segment::Rst(info.id) }),
            None => None,
        }
    }

    /// The peers of all connections that they know of are told that these are reset.
    pub fn rst_all<M>(&self) -> (r: Vec<Outgoing<M>>)
        requires
            self.connections.wf(),
        ensures
            ({
                let v = self.connections@;
                let infos = v.to_reset(v.states.order.len() as int);
                &&& r@.len() == infos.len()
                &&& forall|i: int|
                    0 <= i < infos.len() ==> #[trigger] r@[i] == (Outgoing::<M> {
                        dst: infos[i].peer,
                        segment: Segment::Rst(infos[i].id),
                    })
            }),
    {
        let ghost v = self.connections@;
        let ghost e = self.connections.by_info@;
        let n: usize = self.connections.by_info.len();
        let mut out: Vec<Outgoing<M>> = Vec::new();
        let mut i: usize = 0;
        while i < n
            invariant
                i <= n,
                v == self.connections@,
                e == self.connections.by_info@,
                self.connections.wf(),
                n == e.order.len(),
                out@.len() == v.to_reset(i as int).len(),
                forall|k: int|
                    0 <= k < out@.len() ==> #[trigger] out@[k] == (Outgoing::<M> {
                        dst: v.to_reset(i as int)[k].peer,
                        segment: Segment::Rst(v.to_reset(i as int)[k].id),
                    }),
            decreases n - i,
        {
            match self.connections.by_info.get_index(i) {
                Some((_, held)) => {
                    proof {
                        e.lemma_nth(i as int);
                        lemma_shown_has(e, held.0);
                        assert(v.states.order[i as int] == held.0);
                    }
                    match held.1 {
                        ConnectionState::New { .. } => {},
                        _ => {
                            out.push(
                                Outgoing { dst: held.0.peer, segment: Segment::Rst(held.0.id) },
                            );
                        },
                    }
                },
                None => {},
            }
            i = i + 1;
        }
        out
    }

    /// What is to be done after an event.
    pub fn step<M>(&mut self, event: Event<M>) -> (r: Step<M>)
        requires
            old(self).connections.wf(),
            can_happen(*old(self), event),
        ensures
            final(self).connections.wf(),
            final(self).connections@ == after_event(*old(self), event),
            final(self).ctr == (if event is Connect {
                (old(self).ctr + 1) as u64
            } else {
                old(self).ctr
            }),
            r == step_after(*old(self), event),
    {
        match event {
            Event::Accept(info, idx) => Step::Send(self.accept(info, idx)),
            Event::Connect(dst, idx) => Step::Send(self.connect(dst, idx)),
            Event::Send(info, message) => Step::Send(self.send(info, message)),
            Event::Drop(idx) => match self.rst(idx) {
                Some(outgoing) => Step::Send(outgoing),
                None => Step::Idle,
            },
            Event::Receive(from, seg) => Step::Route(self.route(from, seg)),
        }
    }
}

/// What sending and receiving over a connection comes to, where the channel to the peer is
/// open or not.
pub fn transfer_result(open: bool) -> (r: Result<(), Error>)
    ensures
        r == (if open {
            Ok::<(), Error>(())
        } else {
            Err(Error { kind: ErrorKind::ConnectionReset, cause: Cause::Reset })
        }),
{
    if open {
        Ok(())
    } else {
        Err(Error::new(ErrorKind::ConnectionReset, Cause::Reset))
    }
}

/// What asking for a connection comes to, where the peer has accepted it or not.
pub fn connect_result(accepted: bool) -> (r: Result<(), Error>)
    ensures
        r == (if accepted {
            Ok::<(), Error>(())
        } else {
            Err(Error { kind: ErrorKind::ConnectionRefused, cause: Cause::Refused })
        }),
{
    if accepted {
        Ok(())
    } else {
        Err(Error::new(ErrorKind::ConnectionRefused, Cause::Refused))
    }
}

/// A connection that is asked for and accepted by the peer is connected, and so is one that the
/// peer asks for and the program accepts. Each keeps its index.
pub proof fn law_accepted_is_connected(v: ConnectionsView, info: ConnectionInfo, idx: usize)
    requires
        v.states.wf(),
    ensures
        v.asked(info, idx).finished(info).is_at(
            info,
            ConnectionState::Connected { recv_idx: idx },
        ),
        v.asked(info, idx).finished(info).open_at(idx) == Some(info),
        !v.states.has(info) ==> v.queued(info).accepted(info, idx).is_at(
            info,
            ConnectionState::Connected { recv_idx: idx },
        ),
        !v.states.has(info) ==> v.queued(info).accepted(info, idx).open_at(idx) == Some(info),
{
}

/// A connection that the peer has reset is not reset back when the program gives it up.
pub proof fn law_reset_is_not_answered(v: ConnectionsView, info: ConnectionInfo, idx: usize)
    requires
        v.states.wf(),
        v.by_idx.contains_key(idx) && v.by_idx[idx] == info,
    ensures
        v.disconnected(info).open_at(idx) is None,
        v.disconnected(info).deregistered(idx).states == v.disconnected(info).states,
        !v.disconnected(info).deregistered(idx).by_idx.contains_key(idx),
{
    assert(!v.states.swapped_out(info).has(info));
}

} // verus!
