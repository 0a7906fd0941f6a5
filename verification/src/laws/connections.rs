//! Laws of connections and of what waits for a program.
use crate::addr::SocketAddr;
use crate::connection;
use crate::connection::{
    ConnectionInfo, ConnectionState, ConnectionsView, Event, Inner, Routed, Segment, Step,
};
use crate::inbox;
use crate::net::stream;
use crate::net::stream::{StreamView, TcpStream};
use crate::ordered::Entries;
use crate::time::Duration;
use vstd::prelude::*;

verus! {

/// Asking a peer for a connection sends it a request with the next number, and the connection is
/// new from then on.
pub proof fn law_asking_for_a_connection<M>(inner: Inner, dst: SocketAddr, idx: usize)
    requires
        inner.ctr < u64::MAX,
    ensures
        ({
            let event = Event::<M>::Connect(dst, idx);
            let v = inner.connections@;
            let after = connection::after_event(inner, event);
            let info = ConnectionInfo { id: (inner.ctr + 1) as u64, peer: dst };
            &&& connection::step_after(inner, event) matches Step::Send(out) && out.dst == dst
                && out.segment == Segment::<M>::Syn((inner.ctr + 1) as u64)
            &&& after.states.map == v.states.map.insert(info, ConnectionState::New { recv_idx: idx })
            &&& after.by_idx == v.by_idx.insert(idx, info)
        }),
{
}

/// Accepting a connection answers its request, and messages go both ways from then on.
pub proof fn law_accepting_a_connection<M>(inner: Inner, info: ConnectionInfo, idx: usize)
    ensures
        ({
            let event = Event::<M>::Accept(info, idx);
            let v = inner.connections@;
            let after = connection::after_event(inner, event);
            &&& connection::step_after(inner, event) matches Step::Send(out) && out.dst == info.peer
                && out.segment == Segment::<M>::SynAck(info.id)
            &&& after.states.map == v.states.map.insert(
                info,
                ConnectionState::Connected { recv_idx: idx },
            )
            &&& after.by_idx == v.by_idx.insert(idx, info)
        }),
{
    let v = inner.connections@;
    let after = connection::after_event(inner, Event::<M>::Accept(info, idx));
    assert(after.states.map =~= v.states.map.insert(
        info,
        ConnectionState::Connected { recv_idx: idx },
    ));
}

/// A message goes to the peer of its connection under the connection's number, and one that
/// comes in is passed on as its connection's. No connection changes.
pub proof fn law_messages_of_a_connection<M>(
    inner: Inner,
    info: ConnectionInfo,
    from: SocketAddr,
    id: u64,
    m: M,
)
    ensures
        connection::step_after(inner, Event::Send(info, m)) matches Step::Send(out) && out.dst
            == info.peer && out.segment == Segment::Data(info.id, m),
        connection::after_event(inner, Event::Send(info, m)) == inner.connections@,
        connection::step_after(inner, Event::Receive(from, Segment::Data(id, m)))
            matches Step::Route(Routed::Deliver(to, got)) && to.id == id && to.peer == from && got
            == m,
        connection::after_event(inner, Event::Receive(from, Segment::Data(id, m)))
            == inner.connections@,
{
}

/// A request that comes in waits to be accepted, and an answer makes the connection that was
/// asked for go both ways. The program is told of each.
pub proof fn law_requests_and_answers<M>(inner: Inner, from: SocketAddr, id: u64)
    ensures
        ({
            let v = inner.connections@;
            let info = ConnectionInfo { id, peer: from };
            let (syn, ack) = (
                Event::<M>::Receive(from, Segment::Syn(id)),
                Event::<M>::Receive(from, Segment::SynAck(id)),
            );
            &&& connection::after_event(inner, syn).states.map == v.states.map.insert(
                info,
                ConnectionState::Queued,
            )
            &&& connection::after_event(inner, syn).by_idx == v.by_idx
            &&& connection::step_after(inner, syn) matches Step::Route(Routed::Offer(to)) && to
                == info
            &&& v.states.map.contains_key(info) ==> (v.states.map[info]
                matches ConnectionState::New { recv_idx } ==> connection::after_event(
                inner,
                ack,
            ).states.map == v.states.map.insert(info, ConnectionState::Connected { recv_idx }))
            &&& connection::after_event(inner, ack).by_idx == v.by_idx
            &&& connection::step_after(inner, ack) matches Step::Route(Routed::Established(to))
                && to == info
        }),
{
    let v = inner.connections@;
    let info = ConnectionInfo { id, peer: from };
    let after = connection::after_event(inner, Event::<M>::Receive(from, Segment::SynAck(id)));
    if v.states.map.contains_key(info) {
        if let ConnectionState::New { recv_idx } = v.states.map[info] {
            assert(after.states.map =~= v.states.map.insert(
                info,
                ConnectionState::Connected { recv_idx },
            ));
        }
    }
}

/// A connection that is given up is gone, and its peer is told unless it was gone before. One
/// that the peer resets is gone, and whoever reads from it is told. Other connections stay.
pub proof fn law_ends_of_a_connection<M>(inner: Inner, idx: usize, from: SocketAddr, id: u64)
    ensures
        ({
            let v = inner.connections@;
            let (drop, rst) = (
                Event::<M>::Drop(idx),
                Event::<M>::Receive(from, Segment::Rst(id)),
            );
            let info = ConnectionInfo { id, peer: from };
            &&& v.by_idx.contains_key(idx) ==> {
                let own = v.by_idx[idx];
                &&& connection::after_event(inner, drop).states.map == v.states.map.remove(own)
                &&& connection::after_event(inner, drop).by_idx == v.by_idx.remove(idx)
                &&& v.states.map.contains_key(own) ==> (connection::step_after(
                    inner,
                    drop,
                ) matches Step::Send(out) && out.dst == own.peer && out.segment == Segment::<
                    M,
                >::Rst(own.id))
                &&& !v.states.map.contains_key(own) ==> connection::step_after(inner, drop) is Idle
            }
            &&& !v.by_idx.contains_key(idx) ==> connection::after_event(inner, drop) == v
                && connection::step_after(inner, drop) is Idle
            &&& connection::after_event(inner, rst).states.map == v.states.map.remove(info)
            &&& connection::after_event(inner, rst).by_idx == v.by_idx
            &&& connection::step_after(inner, rst) matches Step::Route(Routed::Close(told))
            &&& told == (if !v.states.map.contains_key(info) {
                None
            } else {
                match v.states.map[info] {
                    ConnectionState::New { recv_idx } => Some(recv_idx),
                    ConnectionState::Connected { recv_idx } => Some(recv_idx),
                    ConnectionState::Queued => None,
                }
            })
        }),
{
    let v = inner.connections@;
    let info = ConnectionInfo { id, peer: from };
    if v.by_idx.contains_key(idx) {
        let own = v.by_idx[idx];
        assert(connection::after_event(inner, Event::<M>::Drop(idx)).states.map
            =~= v.states.map.remove(own));
    }
    assert(connection::after_event(
        inner,
        Event::<M>::Receive(from, Segment::Rst(id)),
    ).states.map =~= v.states.map.remove(info));
}

/// A host that goes away resets the connections that it has accepted, is asked for or has an
/// answer for, in their order. Those that it has only asked for it does not.
pub proof fn law_connections_that_are_reset(v: ConnectionsView)
    ensures
        v.to_reset(v.states.order.len() as int) == v.states.order.filter(
            |i: ConnectionInfo| !(v.states.map[i] is New),
        ),
{
    let n = v.states.order.len() as int;
    lemma_to_reset(v, n);
    assert(v.states.order.take(n) =~= v.states.order);
}

proof fn lemma_to_reset(v: ConnectionsView, n: int)
    requires
        0 <= n <= v.states.order.len(),
    ensures
        v.to_reset(n) == v.states.order.take(n).filter(
            |i: ConnectionInfo| !(v.states.map[i] is New),
        ),
    decreases n,
{
    reveal(Seq::filter);
    if n > 0 {
        lemma_to_reset(v, n - 1);
        assert(v.states.order.take(n).drop_last() =~= v.states.order.take(n - 1));
    } else {
        assert(v.states.order.take(0).filter(|i: ConnectionInfo| !(v.states.map[i] is New))
            =~= Seq::empty());
    }
}

/// Only what fits how far a connection is can happen to it: a request for one that is not known,
/// an answer to one that was asked for, and messages on one that goes both ways.
pub proof fn law_what_can_happen<M>(inner: Inner, from: SocketAddr, id: u64, idx: usize, m: M)
    ensures
        ({
            let s = inner.connections@.states.map;
            let info = ConnectionInfo { id, peer: from };
            &&& connection::can_happen(inner, Event::Receive(from, Segment::<M>::Syn(id)))
                <==> !s.contains_key(info)
            &&& connection::can_happen(inner, Event::Receive(from, Segment::<M>::SynAck(id)))
                <==> s.contains_key(info) && s[info] is New
            &&& connection::can_happen(inner, Event::Receive(from, Segment::Data(id, m)))
                <==> s.contains_key(info) && s[info] is Connected
            &&& connection::can_happen(inner, Event::Receive(from, Segment::<M>::Rst(id)))
            &&& connection::can_happen(inner, Event::<M>::Accept(info, idx)) <==> s.contains_key(
                info,
            ) && s[info] is Queued
            &&& connection::can_happen(inner, Event::Send(info, m)) <==> s.contains_key(info)
                && s[info] is Connected
            &&& connection::can_happen(inner, Event::<M>::Drop(idx))
        }),
{
}

/// What is received next is the oldest message of a sender once its time has come. No sender
/// known earlier has one. Where none is received no sender has one.
pub proof fn law_next_message<M>(v: Entries<SocketAddr, Seq<inbox::Envelope<M>>>, now: Duration)
    ensures
        ({
            let i = inbox::first_due(v, now, 0);
            &&& 0 <= i <= v.order.len()
            &&& i < v.order.len() ==> v.map[v.order[i]].len() > 0
                && v.map[v.order[i]][0].deliver_at.nanos <= now.nanos
            &&& forall|j: int|
                0 <= j < i ==> v.map[#[trigger] v.order[j]].len() == 0
                    || v.map[v.order[j]][0].deliver_at.nanos > now.nanos
        }),
{
    lemma_first_due(v, now, 0);
}

proof fn lemma_first_due<M>(
    v: Entries<SocketAddr, Seq<inbox::Envelope<M>>>,
    now: Duration,
    k: int,
)
    requires
        0 <= k <= v.order.len(),
    ensures
        ({
            let i = inbox::first_due(v, now, k);
            &&& k <= i <= v.order.len()
            &&& i < v.order.len() ==> v.map[v.order[i]].len() > 0
                && v.map[v.order[i]][0].deliver_at.nanos <= now.nanos
            &&& forall|j: int|
                k <= j < i ==> v.map[#[trigger] v.order[j]].len() == 0
                    || v.map[v.order[j]][0].deliver_at.nanos > now.nanos
        }),
    decreases v.order.len() - k,
{
    if k < v.order.len() && !inbox::is_due(v.nth(k), now) {
        lemma_first_due(v, now, k + 1);
    }
}

/// A message waits behind those that its sender sent before, and receiving takes the oldest away.
/// What other senders sent stays.
pub proof fn law_waiting_messages<M>(
    v: Entries<SocketAddr, Seq<inbox::Envelope<M>>>,
    e: inbox::Envelope<M>,
    a: SocketAddr,
    b: SocketAddr,
)
    ensures
        ({
            let own = e.src.host;
            let after = inbox::sent(v, e);
            &&& after.map.contains_key(own)
            &&& v.map.contains_key(own) ==> after.map[own] == v.map[own].push(e) && after.order
                == v.order
            &&& !v.map.contains_key(own) ==> after.map[own] == seq![e] && after.order
                == v.order.push(own)
            &&& b != own ==> after.map.contains_key(b) == v.map.contains_key(b)
            &&& b != own && v.map.contains_key(b) ==> after.map[b] == v.map[b]
        }),
        v.map.contains_key(a) && v.map[a].len() > 0 ==> {
            let after = inbox::taken(v, a);
            &&& after.map.contains_key(a) && after.map[a].len() == v.map[a].len() - 1
            &&& forall|k: int|
                0 <= k < after.map[a].len() ==> #[trigger] after.map[a][k] == v.map[a][k + 1]
            &&& after.order == v.order
            &&& b != a ==> after.map.contains_key(b) == v.map.contains_key(b)
            &&& b != a && v.map.contains_key(b) ==> after.map[b] == v.map[b]
        },
{
    assert(Seq::<inbox::Envelope<M>>::empty().push(e) =~= seq![e]);
}

/// A read of a stream gives as many bytes as there are, or as there is room for where that is
/// less.
pub proof fn law_bytes_of_a_read(there: nat, room: nat)
    ensures
        stream::least(there, room) <= there && stream::least(there, room) <= room,
        stream::least(there, room) == there || stream::least(there, room) == room,
{
}

/// A read of an open stream looks at what has come in only where it has room and nothing is left
/// from before.
pub proof fn law_when_a_read_looks(v: StreamView, room: usize)
    ensures
        TcpStream::looks(v, room) <==> !v.is_closed && room > 0 && v.rest.len() == 0,
{
}

} // verus!
