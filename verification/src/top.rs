//! The links between the hosts.
use crate::addr;
use crate::addr::{IpAddr, Key, SocketAddr};
use crate::config::Latency;
use crate::envelope::{Envelope, EnvelopeView, Packet, Protocol, Syn};
use crate::error::{Cause, Error, ErrorKind};
use crate::host;
use crate::host::{Host, HostView};
use crate::ordered;
use crate::ordered::{Entries, KeyMap};
use crate::time::Duration;
use std::collections::VecDeque;
use vstd::prelude::*;

verus! {

/// Two different hosts, the one whose address sorts first in front.
#[derive(Clone, Copy, Debug, PartialEq, Eq, Hash, Structural)]
pub struct Pair(pub IpAddr, pub IpAddr);

/// The two addresses in order.
pub open spec fn pair(a: IpAddr, b: IpAddr) -> Pair {
    if a.is_before(b) {
        Pair(a, b)
    } else {
        Pair(b, a)
    }
}

impl Pair {
    /// The two addresses in order.
    pub fn new(a: IpAddr, b: IpAddr) -> (r: Pair)
        requires
            a != b,
        ensures
            r == pair(a, b),
            r.0.is_before(r.1),
    {
        if a.precedes(b) {
            Pair(a, b)
        } else {
            Pair(b, a)
        }
    }

    /// The key of the pair.
    pub open spec fn spec_key(self) -> Key {
        let kinds: u64 = match (self.0, self.1) {
            (IpAddr::V4(_), IpAddr::V4(_)) => 44,
            (IpAddr::V4(_), IpAddr::V6(_)) => 46,
            (IpAddr::V6(_), IpAddr::V4(_)) => 64,
            (IpAddr::V6(_), IpAddr::V6(_)) => 66,
        };
        (self.0.key().0, self.1.key().0, kinds)
    }

    /// The key of the pair.
    #[verifier::when_used_as_spec(spec_key)]
    pub fn key(self) -> (r: Key)
        ensures
            r == self.spec_key(),
    {
        let kinds: u64 = match (self.0, self.1) {
            (IpAddr::V4(_), IpAddr::V4(_)) => 44,
            (IpAddr::V4(_), IpAddr::V6(_)) => 46,
            (IpAddr::V6(_), IpAddr::V4(_)) => 64,
            (IpAddr::V6(_), IpAddr::V6(_)) => 66,
        };
        (self.0.key().0, self.1.key().0, kinds)
    }
}

/// The key of a pair.
pub open spec fn pair_key() -> spec_fn(Pair) -> Key {
    |p: Pair| p.key()
}

/// The key of an address.
pub open spec fn ip_key() -> spec_fn(IpAddr) -> Key {
    |a: IpAddr| a.key()
}

proof fn lemma_keys()
    ensures
        ordered::is_faithful(pair_key()),
        ordered::is_faithful(ip_key()),
{
    assert forall|a: IpAddr, b: IpAddr| #[trigger] ip_key()(a) == #[trigger] ip_key()(b) implies a
        == b by {
        addr::lemma_ip_keys(a, b);
    }
    assert forall|a: Pair, b: Pair|
        #[trigger] pair_key()(a) == #[trigger] pair_key()(b) implies a == b by {
        addr::lemma_ip_keys(a.0, b.0);
        addr::lemma_ip_keys(a.1, b.1);
    }
}

/// Different pairs have different keys.
pub proof fn lemma_pair_keys()
    ensures
        ordered::is_faithful(pair_key()),
{
    lemma_keys();
}

/// The link between two hosts is the same whichever is named first.
pub proof fn law_pair_is_unordered(a: IpAddr, b: IpAddr)
    ensures
        pair(a, b) == pair(b, a),
{
    addr::law_addresses_are_ordered(a, b);
}

/// How one direction of a link is.
#[derive(Clone, Copy, Debug, PartialEq, Eq, Structural)]
pub enum State {
    /// Messages pass.
    Healthy,
    /// Messages are dropped, because the test says so.
    ExplicitPartition,
    /// Messages are dropped by chance.
    RandPartition,
    /// Messages are kept.
    Hold,
}

/// When a message is delivered.
#[derive(Clone, Copy, Debug, PartialEq, Eq, Structural)]
pub enum DeliveryStatus {
    /// At the time, or as soon after it as the link is looked at.
    DeliverAfter(Duration),
    /// Not before the link is released.
    Hold,
}

/// What chance decides for a message that is sent.
#[derive(Clone, Copy, Debug, PartialEq, Eq, Structural)]
pub struct Fate {
    /// Whether a link that is healthy breaks.
    pub fail: bool,
    /// Whether a link that broke by chance is repaired.
    pub repair: bool,
    /// How much longer than the shortest time the message takes.
    pub extra: Duration,
}

/// A message that has been sent and is not delivered yet.
pub struct Sent {
    /// Where it comes from.
    pub src: SocketAddr,
    /// Where it goes.
    pub dst: SocketAddr,
    /// When it is delivered.
    pub status: DeliveryStatus,
    /// What it says.
    pub protocol: Protocol,
}

/// A message that has been sent and is not delivered yet.
#[verifier::ext_equal]
pub struct SentView {
    /// Where it comes from.
    pub src: SocketAddr,
    /// Where it goes.
    pub dst: SocketAddr,
    /// When it is delivered.
    pub status: DeliveryStatus,
    /// What it says.
    pub packet: Packet,
}

impl View for Sent {
    type V = SentView;

    open spec fn view(&self) -> SentView {
        SentView {
            src: self.src,
            dst: self.dst,
            status: self.status,
            packet: self.protocol@,
        }
    }
}

impl SentView {
    /// Whether the message is to be delivered by now.
    pub open spec fn is_due(self, now: Duration) -> bool {
        match self.status {
            DeliveryStatus::DeliverAfter(t) => t.nanos <= now.nanos,
            DeliveryStatus::Hold => false,
        }
    }

    /// The message as it is delivered.
    pub open spec fn envelope(self) -> EnvelopeView {
        EnvelopeView { src: self.src, dst: self.dst, packet: self.packet }
    }

    /// The message, to be delivered at once.
    pub open spec fn released(self, now: Duration) -> SentView {
        SentView { status: DeliveryStatus::DeliverAfter(now), ..self }
    }
}

impl Sent {
    /// Has the message delivered at once.
    pub fn deliver(&mut self, now: Duration)
        ensures
            final(self)@ == old(self)@.released(now),
    {
        self.status = DeliveryStatus::DeliverAfter(now);
    }
}

/// A link between two hosts, in both directions.
pub struct Link {
    pair: Pair,
    state_a_b: State,
    state_b_a: State,
    latency: Option<Latency>,
    sent: VecDeque<Sent>,
    deliverable: KeyMap<VecDeque<Envelope>>,
    now: Duration,
}

/// A link between two hosts.
#[verifier::ext_equal]
pub struct LinkView {
    /// The two hosts.
    pub pair: Pair,
    /// How the direction from the first host to the second is.
    pub state_a_b: State,
    /// How the direction from the second host to the first is.
    pub state_b_a: State,
    /// How long messages travel on this link, where it has a setting of its own.
    pub latency: Option<Latency>,
    /// The messages that are not delivered yet, the oldest first.
    pub sent: Seq<SentView>,
    /// For each address the messages that are ready for it, the oldest first.
    pub ready: Map<IpAddr, Seq<EnvelopeView>>,
    /// The time.
    pub now: Duration,
}

spec fn shown_sent(s: Seq<Sent>) -> Seq<SentView> {
    s.map_values(|m: Sent| m@)
}

spec fn shown_queue(q: Seq<Envelope>) -> Seq<EnvelopeView> {
    q.map_values(|e: Envelope| e@)
}

spec fn shown_ready(e: Entries<Key, VecDeque<Envelope>>) -> Map<IpAddr, Seq<EnvelopeView>> {
    Map::new(
        |a: IpAddr| true,
        |a: IpAddr|
            if e.has(a.key()) {
                shown_queue(e.map[a.key()]@)
            } else {
                Seq::empty()
            },
    )
}

proof fn lemma_shown_ready(e: Entries<Key, VecDeque<Envelope>>, a: IpAddr, q: VecDeque<Envelope>)
    ensures
        shown_ready(e.with(a.key(), q)) == shown_ready(e).insert(a, shown_queue(q@)),
{
    assert forall|b: IpAddr| b.key() == a.key() implies a == b by {
        addr::lemma_ip_keys(a, b);
    }
    assert(shown_ready(e.with(a.key(), q)) =~= shown_ready(e).insert(a, shown_queue(q@)));
}

/// Whether the request for a connection with the number is among the messages.
pub open spec fn has_request(queue: Seq<EnvelopeView>, ack: u64) -> bool {
    exists|i: int| 0 <= i < queue.len() && (#[trigger] queue[i]).packet == Packet::Syn(Syn { ack })
}

impl View for Link {
    type V = LinkView;

    closed spec fn view(&self) -> LinkView {
        LinkView {
            pair: self.pair,
            state_a_b: self.state_a_b,
            state_b_a: self.state_b_a,
            latency: self.latency,
            sent: shown_sent(self.sent@),
            ready: shown_ready(self.deliverable@),
            now: self.now,
        }
    }
}

/// Those of the first `n` messages that are not due.
pub open spec fn kept(sent: Seq<SentView>, now: Duration, n: int) -> Seq<SentView>
    decreases n,
{
    if n <= 0 {
        Seq::empty()
    } else {
        let rest = kept(sent, now, n - 1);
        if sent[n - 1].is_due(now) {
            rest
        } else {
            rest.push(sent[n - 1])
        }
    }
}

/// What is ready once those of the first `n` messages that are due are.
pub open spec fn filled(
    ready: Map<IpAddr, Seq<EnvelopeView>>,
    sent: Seq<SentView>,
    now: Duration,
    n: int,
) -> Map<IpAddr, Seq<EnvelopeView>>
    decreases n,
{
    if n <= 0 {
        ready
    } else {
        let rest = filled(ready, sent, now, n - 1);
        let m = sent[n - 1];
        if m.is_due(now) {
            rest.insert(m.dst.ip, rest[m.dst.ip].push(m.envelope()))
        } else {
            rest
        }
    }
}

/// The host once the first `n` messages have come in.
pub open spec fn received_all(h: HostView, messages: Seq<EnvelopeView>, n: int) -> HostView
    decreases n,
{
    if n <= 0 {
        h
    } else {
        let m = messages[n - 1];
        received_all(h, messages, n - 1).offered(m.src, m.dst, m.packet)
    }
}

impl LinkView {
    /// A healthy link that carries no message.
    pub open spec fn fresh(pair: Pair, now: Duration) -> LinkView {
        LinkView {
            pair,
            state_a_b: State::Healthy,
            state_b_a: State::Healthy,
            latency: None,
            sent: Seq::empty(),
            ready: Map::new(|a: IpAddr| true, |a: IpAddr| Seq::empty()),
            now,
        }
    }

    /// How the direction from the one host to the other is.
    pub open spec fn state(self, src: IpAddr, dst: IpAddr) -> State {
        if src.is_before(dst) {
            self.state_a_b
        } else {
            self.state_b_a
        }
    }

    /// The link with both directions in the state.
    pub open spec fn both(self, state: State) -> LinkView {
        LinkView { state_a_b: state, state_b_a: state, ..self }
    }

    /// The link with the direction from the one host to the other in the state.
    pub open spec fn oneway(self, from: IpAddr, to: IpAddr, state: State) -> LinkView {
        if from.is_before(to) {
            LinkView { state_a_b: state, ..self }
        } else {
            LinkView { state_b_a: state, ..self }
        }
    }

    /// The link, healthy, with the messages that were kept to be delivered at once.
    pub open spec fn released(self) -> LinkView {
        LinkView {
            sent: self.sent.map_values(
                |m: SentView|
                    if m.status is Hold {
                        m.released(self.now)
                    } else {
                        m
                    },
            ),
            ..self.both(State::Healthy)
        }
    }

    /// The link with every message to be delivered at once.
    pub open spec fn flushed(self) -> LinkView {
        LinkView { sent: self.sent.map_values(|m: SentView| m.released(self.now)), ..self }
    }

    /// The link after chance has decided whether it breaks or is repaired.
    pub open spec fn shaken(self, fate: Fate) -> LinkView {
        if self.state_a_b is Healthy || self.state_b_a is Healthy {
            if fate.fail {
                self.both(State::RandPartition)
            } else {
                self
            }
        } else if self.state_a_b is RandPartition || self.state_b_a is RandPartition {
            if fate.repair {
                self.released()
            } else {
                self
            }
        } else {
            self
        }
    }

    /// How long messages travel on the link.
    pub open spec fn latency_or(self, global: Latency) -> Latency {
        match self.latency {
            Some(l) => l,
            None => global,
        }
    }

    /// The link with a message more, unless the direction is broken.
    pub open spec fn queued(
        self,
        global: Latency,
        extra: Duration,
        src: SocketAddr,
        dst: SocketAddr,
        packet: Packet,
    ) -> LinkView {
        match self.state(src.ip, dst.ip) {
            State::Healthy => LinkView {
                sent: self.sent.push(
                    SentView {
                        src,
                        dst,
                        status: DeliveryStatus::DeliverAfter(
                            Duration {
                                nanos: (self.now.nanos + self.latency_or(global).delay(
                                    extra,
                                )) as u128,
                            },
                        ),
                        packet,
                    },
                ),
                ..self
            },
            State::Hold => LinkView {
                sent: self.sent.push(SentView { src, dst, status: DeliveryStatus::Hold, packet }),
                ..self
            },
            _ => self,
        }
    }

    /// Whether the link carries the request for a connection with the number.
    pub open spec fn carries(self, ack: u64) -> bool {
        ||| exists|i: int|
            0 <= i < self.sent.len() && (#[trigger] self.sent[i]).packet == Packet::Syn(Syn { ack })
        ||| has_request(self.ready[self.pair.0], ack)
        ||| has_request(self.ready[self.pair.1], ack)
    }

    /// The link once the messages that are due are ready.
    pub open spec fn processed(self) -> LinkView {
        LinkView {
            sent: kept(self.sent, self.now, self.sent.len() as int),
            ready: filled(self.ready, self.sent, self.now, self.sent.len() as int),
            ..self
        }
    }

    /// The link once a message has been sent over it.
    pub open spec fn enqueued(
        self,
        global: Latency,
        fate: Fate,
        src: SocketAddr,
        dst: SocketAddr,
        packet: Packet,
    ) -> LinkView {
        self.shaken(fate).queued(global, fate.extra, src, dst, packet).processed()
    }

    /// The link at the time.
    pub open spec fn ticked(self, now: Duration) -> LinkView {
        LinkView { now, ..self }.processed()
    }

    /// The link once the messages that are ready for the address are taken.
    pub open spec fn drained(self, a: IpAddr) -> LinkView {
        LinkView { ready: self.ready.insert(a, Seq::empty()), ..self }
    }

    /// Whether the times add up: messages travel no shorter than they may, and arrive
    /// before the end of time.
    pub open spec fn can_send(self, global: Latency) -> bool {
        let l = self.latency_or(global);
        &&& l.min_message_latency.nanos <= l.max_message_latency.nanos
        &&& self.now.nanos + l.max_message_latency.nanos <= u128::MAX
    }
}

impl Link {
    /// Whether the collection of what is ready is well formed.
    pub closed spec fn wf(&self) -> bool {
        self.deliverable@.wf()
    }

    fn new(pair: Pair, now: Duration) -> (r: Link)
        ensures
            r.wf(),
            r@ == LinkView::fresh(pair, now),
    {
        let r = Link {
            pair,
            state_a_b: State::Healthy,
            state_b_a: State::Healthy,
            latency: None,
            sent: VecDeque::new(),
            deliverable: KeyMap::new(),
            now,
        };
        assert(r@.sent =~= Seq::empty());
        assert(r@.ready =~= LinkView::fresh(pair, now).ready);
        r
    }

    fn enqueue_message(
        &mut self,
        global: Latency,
        fate: Fate,
        src: SocketAddr,
        dst: SocketAddr,
        message: Protocol,
    )
        requires
            old(self).wf(),
            old(self)@.can_send(global),
        ensures
            final(self).wf(),
            final(self)@ == old(self)@.enqueued(global, fate, src, dst, message@),
    {
        self.rand_partition_or_repair(fate);
        self.enqueue(global, fate.extra, src, dst, message);
        self.process_deliverables();
    }

    /// How the direction from the one host to the other is.
    fn get_state_for_message(&self, src: IpAddr, dst: IpAddr) -> (r: State)
        ensures
            r == self@.state(src, dst),
    {
        if src.precedes(dst) {
            self.state_a_b
        } else {
            self.state_b_a
        }
    }

    fn enqueue(
        &mut self,
        global: Latency,
        extra: Duration,
        src: SocketAddr,
        dst: SocketAddr,
        message: Protocol,
    )
        requires
            old(self).wf(),
            old(self)@.can_send(global),
        ensures
            final(self).wf(),
            final(self)@ == old(self)@.queued(global, extra, src, dst, message@),
    {
        let state = self.get_state_for_message(src.ip, dst.ip);
        let status = match state {
            State::Healthy => {
                let delay = self.delay(global, extra);
                DeliveryStatus::DeliverAfter(self.now.plus(delay))
            },
            State::Hold => DeliveryStatus::Hold,
            _ => {
                return;
            },
        };
        let sent = Sent { src, dst, status, protocol: message };
        let ghost before = self.sent@;
        let ghost value = sent;
        self.sent.push_back(sent);
        assert(shown_sent(self.sent@) =~= shown_sent(before).push(value@));
        assert(self@ =~= old(self)@.queued(global, extra, src, dst, message@));
    }

    fn tick(&mut self, now: Duration)
        requires
            old(self).wf(),
        ensures
            final(self).wf(),
            final(self)@ == old(self)@.ticked(now),
    {
        self.now = now;
        self.process_deliverables();
    }

    fn is_ready(&self, a: IpAddr, ack: u64) -> (r: bool)
        ensures
            r == has_request(self@.ready[a], ack),
    {
        match self.deliverable.get(a.key()) {
            None => false,
            Some(queue) => {
                assert(self@.ready[a] == shown_queue(queue@));
                let mut i: usize = 0;
                while i < queue.len()
                    invariant
                        i <= queue@.len(),
                        self@.ready[a] == shown_queue(queue@),
                        forall|k: int|
                            0 <= k < i ==> (#[trigger] self@.ready[a][k]).packet != Packet::Syn(
                                Syn { ack },
                            ),
                    decreases queue.len() - i,
                {
                    assert(self@.ready[a][i as int] == queue@[i as int]@);
                    if queue[i].message.is_request(ack) {
                        return true;
                    }
                    i = i + 1;
                }
                false
            },
        }
    }

    fn can_deliver(&self, a: IpAddr) -> (r: bool)
        ensures
            r == forall|k: int|
                0 <= k < self@.ready[a].len() ==> host::is_taken_in(
                    (#[trigger] self@.ready[a][k]).packet,
                ),
    {
        match self.deliverable.get(a.key()) {
            None => true,
            Some(queue) => {
                assert(self@.ready[a] == shown_queue(queue@));
                let mut i: usize = 0;
                while i < queue.len()
                    invariant
                        i <= queue@.len(),
                        self@.ready[a] == shown_queue(queue@),
                        forall|k: int|
                            0 <= k < i ==> host::is_taken_in((#[trigger] self@.ready[a][k]).packet),
                    decreases queue.len() - i,
                {
                    assert(self@.ready[a][i as int] == queue@[i as int]@);
                    if !host::can_take_in(&queue[i].message) {
                        return false;
                    }
                    i = i + 1;
                }
                true
            },
        }
    }

    fn carries(&self, ack: u64) -> (r: bool)
        ensures
            r == self@.carries(ack),
    {
        let mut i: usize = 0;
        while i < self.sent.len()
            invariant
                i <= self.sent@.len(),
                forall|k: int|
                    0 <= k < i ==> (#[trigger] self@.sent[k]).packet != Packet::Syn(Syn { ack }),
            decreases self.sent.len() - i,
        {
            assert(self@.sent[i as int] == self.sent@[i as int]@);
            if self.sent[i].protocol.is_request(ack) {
                return true;
            }
            i = i + 1;
        }
        self.is_ready(self.pair.0, ack) || self.is_ready(self.pair.1, ack)
    }

    fn make_ready(&mut self, envelope: Envelope)
        requires
            old(self).wf(),
        ensures
            final(self).wf(),
            final(self)@ == (LinkView {
                ready: old(self)@.ready.insert(
                    envelope.dst.ip,
                    old(self)@.ready[envelope.dst.ip].push(envelope@),
                ),
                ..old(self)@
            }),
            final(self).sent == old(self).sent,
    {
        let a = envelope.dst.ip;
        let key = a.key();
        let ghost before = self.deliverable@;
        let ghost view = envelope@;
        match self.deliverable.get_mut(key) {
            Some(queue) => {
                let ghost old_queue = queue@;
                queue.push_back(envelope);
                let ghost changed = *queue;
                proof {
                    before.lemma_with(key, changed);
                    lemma_shown_ready(before, a, changed);
                    assert(shown_queue(changed@) =~= shown_queue(old_queue).push(view));
                }
            },
            None => {
                let mut queue: VecDeque<Envelope> = VecDeque::new();
                queue.push_back(envelope);
                let ghost changed = queue;
                let _ = self.deliverable.insert(key, queue);
                proof {
                    before.lemma_with(key, changed);
                    lemma_shown_ready(before, a, changed);
                    assert(shown_queue(changed@) =~= Seq::<EnvelopeView>::empty().push(view));
                }
            },
        }
        assert(self@ =~= LinkView {
            ready: old(self)@.ready.insert(a, old(self)@.ready[a].push(view)),
            ..old(self)@
        });
    }

    fn process_deliverables(&mut self)
        requires
            old(self).wf(),
        ensures
            final(self).wf(),
            final(self)@ == old(self)@.processed(),
    {
        let ghost start = self@;
        let ghost n = start.sent.len();
        let ghost mut i: int = 0;
        let mut index: usize = 0;
        proof {
            assert(start.sent.skip(0) =~= start.sent);
            assert(kept(start.sent, start.now, 0) + start.sent =~= start.sent);
        }
        while index < self.sent.len()
            invariant
                self.wf(),
                start == old(self)@,
                n == start.sent.len(),
                0 <= i <= n,
                index == kept(start.sent, start.now, i).len(),
                self@.sent == kept(start.sent, start.now, i) + start.sent.skip(i),
                self@ == (LinkView {
                    sent: self@.sent,
                    ready: filled(start.ready, start.sent, start.now, i),
                    ..start
                }),
            decreases self.sent.len() - index,
        {
            let ghost held = kept(start.sent, start.now, i);
            proof {
                assert(self@.sent[index as int] == start.sent.skip(i)[0]);
                assert(start.sent.skip(i)[0] == start.sent[i]);
                assert(self@.sent[index as int] == self.sent@[index as int]@);
            }
            let due = match self.sent[index].status {
                DeliveryStatus::DeliverAfter(time) => time.nanos <= self.now.nanos,
                DeliveryStatus::Hold => false,
            };
            let ghost all = self.sent@;
            if due {
                match self.sent.remove(index) {
                    Some(sent) => {
                        proof {
                            assert(shown_sent(self.sent@) =~= shown_sent(all).remove(index as int));
                            assert(self@.sent =~= kept(start.sent, start.now, i + 1)
                                + start.sent.skip(i + 1));
                        }
                        let ghost rest = self@.sent;
                        self.make_ready(
                            Envelope { src: sent.src, dst: sent.dst, message: sent.protocol },
                        );
                        assert(self@.sent == rest);
                    },
                    None => {},
                }
            } else {
                index = index + 1;
                assert(self@.sent =~= kept(start.sent, start.now, i + 1) + start.sent.skip(i + 1));
            }
            proof {
                i = i + 1;
            }
        }
        proof {
            assert(start.sent.skip(i).len() == 0);
            assert(self@.sent =~= kept(start.sent, start.now, n as int));
            assert(self@ =~= start.processed());
        }
    }

    fn deliver_messages(&mut self, host: &mut Host)
        requires
            old(self).wf(),
            old(host).wf(),
            forall|i: int|
                0 <= i < old(self)@.ready[old(host)@.addr].len() ==> host::is_taken_in(
                    (#[trigger] old(self)@.ready[old(host)@.addr][i]).packet,
                ),
        ensures
            final(self).wf(),
            final(host).wf(),
            final(self)@ == old(self)@.drained(old(host)@.addr),
            final(host)@ == received_all(
                old(host)@,
                old(self)@.ready[old(host)@.addr],
                old(self)@.ready[old(host)@.addr].len() as int,
            ),
    {
        let a = host.addr;
        let ghost messages = self@.ready[a];
        let ghost before = self.deliverable@;
        let ghost start = host@;
        let mut queue: VecDeque<Envelope> = VecDeque::new();
        match self.deliverable.get_mut(a.key()) {
            Some(q) => {
                std::mem::swap(q, &mut queue);
                let ghost changed = *q;
                proof {
                    before.lemma_with(a.key(), changed);
                    lemma_shown_ready(before, a, changed);
                    assert(shown_queue(changed@) =~= Seq::empty());
                }
            },
            None => {
                assert(shown_queue(queue@) =~= messages);
            },
        }
        assert(self@ =~= old(self)@.drained(a));
        assert(shown_queue(queue@) =~= messages);
        let ghost mut n: int = 0;
        assert(messages.skip(0) =~= messages);
        while queue.len() > 0
            invariant
                0 <= n <= messages.len(),
                host.wf(),
                host@ == received_all(start, messages, n),
                shown_queue(queue@) == messages.skip(n),
                forall|i: int|
                    0 <= i < messages.len() ==> host::is_taken_in((#[trigger] messages[i]).packet),
            decreases queue@.len(),
        {
            let ghost q = queue@;
            match queue.pop_front() {
                Some(message) => {
                    proof {
                        assert(message == q[0]);
                        assert(shown_queue(q).len() == q.len());
                        assert(n < messages.len());
                        assert(shown_queue(q)[0] == message@);
                        assert(messages.skip(n)[0] == messages[n]);
                        assert(shown_queue(queue@) =~= shown_queue(q).skip(1));
                        assert(messages.skip(n).skip(1) =~= messages.skip(n + 1));
                        n = n + 1;
                    }
                    host.offer(message);
                },
                None => {},
            }
        }
        assert(messages.skip(n).len() == 0);
    }

    /// Breaks or repairs the link by chance.
    fn rand_partition_or_repair(&mut self, fate: Fate)
        requires
            old(self).wf(),
        ensures
            final(self).wf(),
            final(self)@ == old(self)@.shaken(fate),
            final(self)@.now == old(self)@.now,
            final(self)@.latency == old(self)@.latency,
    {
        match (self.state_a_b, self.state_b_a) {
            (State::Healthy, _) | (_, State::Healthy) => {
                if fate.fail {
                    self.rand_partition();
                }
            },
            (State::RandPartition, _) | (_, State::RandPartition) => {
                if fate.repair {
                    self.release();
                }
            },
            _ => {},
        }
    }

    fn hold(&mut self)
        ensures
            final(self).wf() == old(self).wf(),
            final(self)@ == old(self)@.both(State::Hold),
    {
        self.state_a_b = State::Hold;
        self.state_b_a = State::Hold;
    }

    fn release(&mut self)
        ensures
            final(self).wf() == old(self).wf(),
            final(self)@ == old(self)@.released(),
    {
        let ghost start = self@;
        self.state_a_b = State::Healthy;
        self.state_b_a = State::Healthy;
        let n: usize = self.sent.len();
        let mut i: usize = 0;
        let mut done: VecDeque<Sent> = VecDeque::new();
        let mut rest: VecDeque<Sent> = VecDeque::new();
        std::mem::swap(&mut self.sent, &mut rest);
        let ghost all = rest@;
        assert(all.skip(0) =~= all);
        while i < n
            invariant
                i <= n,
                n == all.len(),
                rest@ == all.skip(i as int),
                shown_sent(all) == start.sent,
                self.now == start.now,
                done@.len() == i,
                forall|k: int| 0 <= k < i ==> #[trigger] done@[k]@ == start.released().sent[k],
            decreases n - i,
        {
            match rest.pop_front() {
                Some(sent) => {
                    let mut sent = sent;
                    proof {
                        assert(sent == all[i as int]);
                        assert(start.sent[i as int] == sent@);
                        assert(rest@ =~= all.skip(i + 1));
                    }
                    match sent.status {
                        DeliveryStatus::Hold => {
                            sent.deliver(self.now);
                        },
                        _ => {},
                    }
                    done.push_back(sent);
                },
                None => {},
            }
            i = i + 1;
        }
        self.sent = done;
        assert(shown_sent(self.sent@) =~= start.released().sent);
    }

    /// Has every message delivered at once.
    fn flush(&mut self)
        ensures
            final(self).wf() == old(self).wf(),
            final(self)@ == old(self)@.flushed(),
    {
        let ghost start = self@;
        let n: usize = self.sent.len();
        let mut i: usize = 0;
        let mut done: VecDeque<Sent> = VecDeque::new();
        let mut rest: VecDeque<Sent> = VecDeque::new();
        std::mem::swap(&mut self.sent, &mut rest);
        let ghost all = rest@;
        assert(all.skip(0) =~= all);
        while i < n
            invariant
                i <= n,
                n == all.len(),
                rest@ == all.skip(i as int),
                shown_sent(all) == start.sent,
                self.now == start.now,
                done@.len() == i,
                forall|k: int| 0 <= k < i ==> #[trigger] done@[k]@ == start.flushed().sent[k],
            decreases n - i,
        {
            match rest.pop_front() {
                Some(sent) => {
                    let mut sent = sent;
                    proof {
                        assert(sent == all[i as int]);
                        assert(start.sent[i as int] == sent@);
                        assert(rest@ =~= all.skip(i + 1));
                    }
                    sent.deliver(self.now);
                    done.push_back(sent);
                },
                None => {},
            }
            i = i + 1;
        }
        self.sent = done;
        assert(shown_sent(self.sent@) =~= start.flushed().sent);
    }

    fn rand_partition(&mut self)
        ensures
            final(self).wf() == old(self).wf(),
            final(self)@ == old(self)@.both(State::RandPartition),
    {
        self.state_a_b = State::RandPartition;
        self.state_b_a = State::RandPartition;
    }

    fn explicit_partition(&mut self)
        ensures
            final(self).wf() == old(self).wf(),
            final(self)@ == old(self)@.both(State::ExplicitPartition),
    {
        self.state_a_b = State::ExplicitPartition;
        self.state_b_a = State::ExplicitPartition;
    }

    fn partition_oneway(&mut self, from: IpAddr, to: IpAddr)
        ensures
            final(self).wf() == old(self).wf(),
            final(self)@ == old(self)@.oneway(from, to, State::ExplicitPartition),
    {
        if from.precedes(to) {
            self.state_a_b = State::ExplicitPartition;
        } else {
            self.state_b_a = State::ExplicitPartition;
        }
    }

    fn repair_oneway(&mut self, from: IpAddr, to: IpAddr)
        ensures
            final(self).wf() == old(self).wf(),
            final(self)@ == old(self)@.oneway(from, to, State::Healthy),
    {
        if from.precedes(to) {
            self.state_a_b = State::Healthy;
        } else {
            self.state_b_a = State::Healthy;
        }
    }

    /// Repairs the link. The messages that are kept stay so.
    fn explicit_repair(&mut self)
        ensures
            final(self).wf() == old(self).wf(),
            final(self)@ == old(self)@.both(State::Healthy),
    {
        self.state_a_b = State::Healthy;
        self.state_b_a = State::Healthy;
    }

    fn delay(&self, global: Latency, extra: Duration) -> (r: Duration)
        requires
            self@.latency_or(global).min_message_latency.nanos <= self@.latency_or(
                global,
            ).max_message_latency.nanos,
        ensures
            r.nanos == self@.latency_or(global).delay(extra),
    {
        let config = match self.latency {
            Some(l) => l,
            None => global,
        };
        let room = config.max_message_latency.saturating_sub(config.min_message_latency);
        if extra.nanos <= room.nanos {
            config.min_message_latency.plus(extra)
        } else {
            config.max_message_latency
        }
    }

    fn can_send(&self, global: Latency) -> (r: bool)
        ensures
            r == self@.can_send(global),
    {
        let config = match self.latency {
            Some(l) => l,
            None => global,
        };
        let max: u128 = config.max_message_latency.nanos;
        config.min_message_latency.nanos <= max && self.now.nanos <= u128::MAX - max
    }

    fn set_latency(&mut self, latency: Latency)
        ensures
            final(self).wf() == old(self).wf(),
            final(self)@ == (LinkView { latency: Some(latency), ..old(self)@ }),
    {
        self.latency = Some(latency);
    }
}

/// What is done to a link.
#[derive(Clone, Copy, Debug, PartialEq, Eq, Structural)]
pub enum LinkAction {
    /// Messages are kept until the link is released.
    Hold,
    /// The link is healthy, and messages that were kept are delivered.
    Release,
    /// Messages are dropped.
    Partition,
    /// Messages from the first host to the second are dropped.
    PartitionOneway,
    /// Messages pass.
    Repair,
    /// Messages from the first host to the second pass.
    RepairOneway,
    /// Messages travel exactly so long.
    SetLatency(Duration),
    /// Messages travel at most so long.
    SetMaxLatency(Duration),
}

impl LinkView {
    /// The link after something is done to it.
    pub open spec fn acted(
        self,
        global: Latency,
        action: LinkAction,
        a: IpAddr,
        b: IpAddr,
    ) -> LinkView {
        match action {
            LinkAction::Hold => self.both(State::Hold),
            LinkAction::Release => self.released(),
            LinkAction::Partition => self.both(State::ExplicitPartition),
            LinkAction::PartitionOneway => self.oneway(a, b, State::ExplicitPartition),
            LinkAction::Repair => self.both(State::Healthy),
            LinkAction::RepairOneway => self.oneway(a, b, State::Healthy),
            LinkAction::SetLatency(value) => LinkView {
                latency: Some(Latency { min_message_latency: value, max_message_latency: value }),
                ..self
            },
            LinkAction::SetMaxLatency(value) => LinkView {
                latency: Some(Latency { max_message_latency: value, ..self.latency_or(global) }),
                ..self
            },
        }
    }
}

impl Link {
    fn act(&mut self, global: Latency, action: LinkAction, a: IpAddr, b: IpAddr)
        requires
            old(self).wf(),
        ensures
            final(self).wf(),
            final(self)@ == old(self)@.acted(global, action, a, b),
    {
        match action {
            LinkAction::Hold => self.hold(),
            LinkAction::Release => self.release(),
            LinkAction::Partition => self.explicit_partition(),
            LinkAction::PartitionOneway => self.partition_oneway(a, b),
            LinkAction::Repair => self.explicit_repair(),
            LinkAction::RepairOneway => self.repair_oneway(a, b),
            LinkAction::SetLatency(value) => {
                self.set_latency(
                    Latency { min_message_latency: value, max_message_latency: value },
                );
            },
            LinkAction::SetMaxLatency(value) => {
                let mut latency = match self.latency {
                    Some(l) => l,
                    None => global,
                };
                latency.max_message_latency = value;
                self.set_latency(latency);
            },
        }
    }
}

/// The links of a network.
pub struct Topology {
    latency: Latency,
    links: KeyMap<Link>,
    now: Duration,
}

/// The links of a network.
#[verifier::ext_equal]
pub struct TopologyView {
    /// How long messages travel on links that have no setting of their own.
    pub latency: Latency,
    /// The pairs of hosts that have a link, in the order in which they came.
    pub order: Seq<Pair>,
    /// The link of each pair that has one.
    pub links: Map<Pair, LinkView>,
    /// The time.
    pub now: Duration,
}

spec fn shown_links(e: Entries<Key, Link>) -> Map<Pair, LinkView> {
    ordered::rekeyed(e, pair_key()).map_values(|l: Link| l@)
}

spec fn shown_order(e: Entries<Key, Link>) -> Seq<Pair> {
    e.order.map_values(|k: Key| e.map[k]@.pair)
}

spec fn links_wf(e: Entries<Key, Link>) -> bool {
    &&& e.wf()
    &&& forall|k: Key| #[trigger] e.has(k) ==> e.map[k].wf() && e.map[k]@.pair.key() == k
}

proof fn lemma_link_changed(e: Entries<Key, Link>, p: Pair, link: Link)
    requires
        links_wf(e),
        e.has(p.key()),
        link.wf(),
        link@.pair == e.map[p.key()]@.pair,
    ensures
        links_wf(e.with(p.key(), link)),
        shown_links(e.with(p.key(), link)) == shown_links(e).insert(p, link@),
        shown_order(e.with(p.key(), link)) == shown_order(e),
{
    lemma_keys();
    let after = e.with(p.key(), link);
    e.lemma_with(p.key(), link);
    ordered::lemma_rekeyed_with(e, pair_key(), p, link);
    assert(pair_key()(p) == p.key());
    assert(shown_links(after) =~= shown_links(e).insert(p, link@));
    assert forall|k: Key| #[trigger] after.has(k) implies after.map[k].wf()
        && after.map[k]@.pair.key() == k by {
        assert(e.has(k));
    }
    assert(shown_order(after) =~= shown_order(e)) by {
        assert forall|i: int| 0 <= i < e.order.len() implies #[trigger] shown_order(after)[i]
            == shown_order(e)[i] by {
            e.lemma_nth(i);
        }
    }
}

proof fn lemma_link_added(e: Entries<Key, Link>, p: Pair, link: Link)
    requires
        links_wf(e),
        !e.has(p.key()),
        link.wf(),
        link@.pair == p,
    ensures
        links_wf(e.with(p.key(), link)),
        shown_links(e.with(p.key(), link)) == shown_links(e).insert(p, link@),
        shown_order(e.with(p.key(), link)) == shown_order(e).push(p),
{
    lemma_keys();
    let after = e.with(p.key(), link);
    e.lemma_with(p.key(), link);
    ordered::lemma_rekeyed_with(e, pair_key(), p, link);
    assert(pair_key()(p) == p.key());
    assert(shown_links(after) =~= shown_links(e).insert(p, link@));
    assert forall|k: Key| #[trigger] after.has(k) implies after.map[k].wf()
        && after.map[k]@.pair.key() == k by {
        if k != p.key() {
            assert(e.has(k));
        }
    }
    assert(shown_order(after) =~= shown_order(e).push(p)) by {
        assert forall|i: int| 0 <= i < e.order.len() implies #[trigger] shown_order(after)[i]
            == shown_order(e)[i] by {
            e.lemma_nth(i);
        }
    }
}

/// The pair at an index has a link, and the index its pair's key.
proof fn lemma_at(e: Entries<Key, Link>, i: int)
    requires
        links_wf(e),
        0 <= i < e.order.len(),
    ensures
        e.has(e.order[i]),
        shown_order(e)[i].key() == e.order[i],
        shown_links(e).contains_key(shown_order(e)[i]),
        shown_links(e)[shown_order(e)[i]] == e.nth(i)@,
        e.nth(i).wf(),
{
    e.lemma_nth(i);
    assert(pair_key()(shown_order(e)[i]) == e.order[i]);
}

impl View for Topology {
    type V = TopologyView;

    closed spec fn view(&self) -> TopologyView {
        TopologyView {
            latency: self.latency,
            order: shown_order(self.links@),
            links: shown_links(self.links@),
            now: self.now,
        }
    }
}

/// Whether the host is at one of the ends.
pub open spec fn touches(p: Pair, a: IpAddr) -> bool {
    p.0 == a || p.1 == a
}

impl TopologyView {
    /// Whether each pair that has a link is listed once, and each link shows the time.
    pub open spec fn wf(self) -> bool {
        &&& self.order.no_duplicates()
        &&& forall|p: Pair| #[trigger] self.links.contains_key(p) <==> self.order.contains(p)
        &&& forall|p: Pair| #[trigger]
            self.links.contains_key(p) ==> self.links[p].now == self.now && self.links[p].pair == p
    }

    /// Whether a link carries the request for a connection with the number.
    pub open spec fn carries(self, ack: u64) -> bool {
        exists|p: Pair| #[trigger] self.links.contains_key(p) && self.links[p].carries(ack)
    }

    /// Whether the two hosts have a link.
    pub open spec fn linked(self, a: IpAddr, b: IpAddr) -> bool {
        a != b && self.links.contains_key(pair(a, b))
    }

    /// The network with a link more.
    pub open spec fn registered(self, a: IpAddr, b: IpAddr) -> TopologyView {
        TopologyView {
            order: self.order.push(pair(a, b)),
            links: self.links.insert(pair(a, b), LinkView::fresh(pair(a, b), self.now)),
            ..self
        }
    }

    /// The network after something is done to the link of two hosts.
    pub open spec fn acted(self, action: LinkAction, a: IpAddr, b: IpAddr) -> TopologyView {
        let p = pair(a, b);
        TopologyView {
            links: self.links.insert(p, self.links[p].acted(self.latency, action, a, b)),
            ..self
        }
    }

    /// The network once a message has been sent.
    pub open spec fn enqueued(
        self,
        fate: Fate,
        src: SocketAddr,
        dst: SocketAddr,
        packet: Packet,
    ) -> TopologyView {
        let p = pair(src.ip, dst.ip);
        TopologyView {
            links: self.links.insert(
                p,
                self.links[p].enqueued(self.latency, fate, src, dst, packet),
            ),
            ..self
        }
    }

    /// The network so much later.
    pub open spec fn ticked(self, duration: Duration) -> TopologyView {
        let now = Duration { nanos: (self.now.nanos + duration.nanos) as u128 };
        TopologyView { now, links: self.links.map_values(|l: LinkView| l.ticked(now)), ..self }
    }

    /// The host once it has what the first `n` links have ready for it.
    pub open spec fn delivered(self, h: HostView, n: int) -> HostView
        decreases n,
    {
        if n <= 0 {
            h
        } else {
            let before = self.delivered(h, n - 1);
            let p = self.order[n - 1];
            if touches(p, h.addr) {
                let messages = self.links[p].ready[h.addr];
                received_all(before, messages, messages.len() as int)
            } else {
                before
            }
        }
    }

    /// The network once a host has taken what is ready for it.
    pub open spec fn drained(self, a: IpAddr) -> TopologyView {
        TopologyView {
            links: self.links.map_values(
                |l: LinkView|
                    if touches(l.pair, a) {
                        l.drained(a)
                    } else {
                        l
                    },
            ),
            ..self
        }
    }

    /// Whether the host takes in everything that is ready for it.
    pub open spec fn is_deliverable(self, a: IpAddr) -> bool {
        forall|p: Pair, i: int|
            self.links.contains_key(p) && touches(p, a) && 0 <= i < self.links[p].ready[a].len()
                ==> host::is_taken_in((#[trigger] self.links[p].ready[a][i]).packet)
    }
}

/// Messages coming in leave the address of a host as it is.
proof fn lemma_received_addr(h: HostView, messages: Seq<EnvelopeView>, n: int)
    ensures
        received_all(h, messages, n).addr == h.addr,
    decreases n,
{
    if n > 0 {
        lemma_received_addr(h, messages, n - 1);
    }
}

/// Delivering leaves the address of a host as it is.
pub proof fn lemma_delivered_addr(t: TopologyView, h: HostView, n: int)
    ensures
        t.delivered(h, n).addr == h.addr,
    decreases n,
{
    if n > 0 {
        lemma_delivered_addr(t, h, n - 1);
        let before = t.delivered(h, n - 1);
        let messages = t.links[t.order[n - 1]].ready[h.addr];
        lemma_received_addr(before, messages, messages.len() as int);
    }
}

impl Topology {
    /// Whether the links are well formed and each shows the time.
    pub closed spec fn wf(&self) -> bool {
        &&& links_wf(self.links@)
        &&& forall|k: Key| #[trigger] self.links@.has(k) ==> self.links@.map[k]@.now == self.now
    }

    /// The well formed network as it is seen.
    pub proof fn lemma_wf(&self)
        requires
            self.wf(),
        ensures
            self@.wf(),
    {
        let e = self.links@;
        let v = self@;
        lemma_keys();
        assert forall|i: int, j: int|
            0 <= i < v.order.len() && 0 <= j < v.order.len() && i != j implies v.order[i]
            != v.order[j] by {
            lemma_at(e, i);
            lemma_at(e, j);
            assert(e.order[i] != e.order[j]);
        }
        assert forall|p: Pair| #[trigger] v.links.contains_key(p) <==> v.order.contains(p) by {
            if v.links.contains_key(p) {
                assert(pair_key()(p) == p.key());
                let i = e.lemma_index(p.key());
                lemma_at(e, i);
                assert(pair_key()(v.order[i]) == pair_key()(p));
                assert(v.order[i] == p);
            }
            if v.order.contains(p) {
                let i = choose|i: int| 0 <= i < v.order.len() && v.order[i] == p;
                lemma_at(e, i);
            }
        }
        assert forall|p: Pair| #[trigger] v.links.contains_key(p) implies v.links[p].now == v.now
            && v.links[p].pair == p by {
            assert(pair_key()(p) == p.key());
            assert(e.has(p.key()));
            assert(pair_key()(v.links[p].pair) == pair_key()(p));
        }
    }

    /// A network without links.
    pub fn new(latency: Latency) -> (r: Topology)
        ensures
            r.wf(),
            r@ == (TopologyView {
                latency,
                order: Seq::empty(),
                links: Map::empty(),
                now: Duration { nanos: 0 },
            }),
    {
        let r = Topology { latency, links: KeyMap::new(), now: Duration::zero() };
        assert(r@.order =~= Seq::empty());
        assert(r@.links =~= Map::empty());
        r
    }

    /// Adds a link between two hosts that have none.
    pub fn register(&mut self, a: IpAddr, b: IpAddr)
        requires
            old(self).wf(),
            a != b,
            !old(self)@.links.contains_key(pair(a, b)),
        ensures
            final(self).wf(),
            final(self)@ == old(self)@.registered(a, b),
    {
        let p = Pair::new(a, b);
        let ghost before = self.links@;
        let link = Link::new(p, self.now);
        let ghost value = link;
        assert(pair_key()(p) == p.key());
        let _ = self.links.insert(p.key(), link);
        proof {
            lemma_link_added(before, p, value);
            assert forall|k: Key| #[trigger] self.links@.has(k) implies self.links@.map[k]@.now
                == self.now by {
                if k != p.key() {
                    assert(before.has(k));
                }
            }
        }
    }

    /// Sets how long messages travel at most on links that have no setting of their own.
    pub fn set_max_message_latency(&mut self, value: Duration)
        requires
            old(self).wf(),
        ensures
            final(self).wf(),
            final(self)@ == (TopologyView {
                latency: Latency { max_message_latency: value, ..old(self)@.latency },
                ..old(self)@
            }),
    {
        self.latency.max_message_latency = value;
    }

    /// Does something to the link of two hosts.
    pub fn act(&mut self, action: LinkAction, a: IpAddr, b: IpAddr)
        requires
            old(self).wf(),
            old(self)@.linked(a, b),
        ensures
            final(self).wf(),
            final(self)@ == old(self)@.acted(action, a, b),
    {
        let p = Pair::new(a, b);
        let latency = self.latency;
        let ghost before = self.links@;
        assert(pair_key()(p) == p.key());
        match self.links.get_mut(p.key()) {
            Some(link) => {
                let ghost start = *link;
                proof {
                    assert(before.has(p.key()));
                }
                link.act(latency, action, a, b);
                let ghost changed = *link;
                proof {
                    lemma_link_changed(before, p, changed);
                }
            },
            None => {},
        }
        proof {
            assert forall|k: Key| #[trigger] self.links@.has(k) implies self.links@.map[k]@.now
                == self.now by {
                assert(before.has(k));
                assert(before.has(p.key()));
            }
        }
    }

    /// Keeps the messages between the two hosts.
    pub fn hold(&mut self, a: IpAddr, b: IpAddr)
        requires
            old(self).wf(),
            old(self)@.linked(a, b),
        ensures
            final(self).wf(),
            final(self)@ == old(self)@.acted(LinkAction::Hold, a, b),
    {
        self.act(LinkAction::Hold, a, b);
    }

    /// Has the messages between the two hosts that were kept delivered.
    pub fn release(&mut self, a: IpAddr, b: IpAddr)
        requires
            old(self).wf(),
            old(self)@.linked(a, b),
        ensures
            final(self).wf(),
            final(self)@ == old(self)@.acted(LinkAction::Release, a, b),
    {
        self.act(LinkAction::Release, a, b);
    }

    /// Drops the messages between the two hosts.
    pub fn partition(&mut self, a: IpAddr, b: IpAddr)
        requires
            old(self).wf(),
            old(self)@.linked(a, b),
        ensures
            final(self).wf(),
            final(self)@ == old(self)@.acted(LinkAction::Partition, a, b),
    {
        self.act(LinkAction::Partition, a, b);
    }

    /// Drops the messages from the first host to the second.
    pub fn partition_oneway(&mut self, a: IpAddr, b: IpAddr)
        requires
            old(self).wf(),
            old(self)@.linked(a, b),
        ensures
            final(self).wf(),
            final(self)@ == old(self)@.acted(LinkAction::PartitionOneway, a, b),
    {
        self.act(LinkAction::PartitionOneway, a, b);
    }

    /// Lets the messages between the two hosts pass.
    pub fn repair(&mut self, a: IpAddr, b: IpAddr)
        requires
            old(self).wf(),
            old(self)@.linked(a, b),
        ensures
            final(self).wf(),
            final(self)@ == old(self)@.acted(LinkAction::Repair, a, b),
    {
        self.act(LinkAction::Repair, a, b);
    }

    /// Lets the messages from the first host to the second pass.
    pub fn repair_oneway(&mut self, a: IpAddr, b: IpAddr)
        requires
            old(self).wf(),
            old(self)@.linked(a, b),
        ensures
            final(self).wf(),
            final(self)@ == old(self)@.acted(LinkAction::RepairOneway, a, b),
    {
        self.act(LinkAction::RepairOneway, a, b);
    }

    /// Sets how long messages between the two hosts travel.
    pub fn set_link_message_latency(&mut self, a: IpAddr, b: IpAddr, value: Duration)
        requires
            old(self).wf(),
            old(self)@.linked(a, b),
        ensures
            final(self).wf(),
            final(self)@ == old(self)@.acted(LinkAction::SetLatency(value), a, b),
    {
        self.act(LinkAction::SetLatency(value), a, b);
    }

    /// Sets how long messages between the two hosts travel at most.
    pub fn set_link_max_message_latency(&mut self, a: IpAddr, b: IpAddr, value: Duration)
        requires
            old(self).wf(),
            old(self)@.linked(a, b),
        ensures
            final(self).wf(),
            final(self)@ == old(self)@.acted(LinkAction::SetMaxLatency(value), a, b),
    {
        self.act(LinkAction::SetMaxLatency(value), a, b);
    }

    /// Sends a message. It is delivered later, or never if the link is broken. Without a link
    /// to the host the message is refused.
    pub fn enqueue_message(
        &mut self,
        fate: Fate,
        src: SocketAddr,
        dst: SocketAddr,
        message: Protocol,
    ) -> (r: Result<(), Error>)
        requires
            old(self).wf(),
            src.ip != dst.ip,
            old(self)@.linked(src.ip, dst.ip) ==> old(self)@.links[pair(
                src.ip,
                dst.ip,
            )].can_send(old(self)@.latency),
        ensures
            final(self).wf(),
            if old(self)@.linked(src.ip, dst.ip) {
                &&& r == Ok::<(), Error>(())
                &&& final(self)@ == old(self)@.enqueued(fate, src, dst, message@)
            } else {
                &&& r == Err::<(), Error>(
                    Error { kind: ErrorKind::ConnectionRefused, cause: Cause::Refused },
                )
                &&& final(self)@ == old(self)@
            },
    {
        let p = Pair::new(src.ip, dst.ip);
        let latency = self.latency;
        let ghost before = self.links@;
        assert(pair_key()(p) == p.key());
        match self.links.get_mut(p.key()) {
            Some(link) => {
                proof {
                    assert(before.has(p.key()));
                }
                link.enqueue_message(latency, fate, src, dst, message);
                let ghost changed = *link;
                proof {
                    lemma_link_changed(before, p, changed);
                }
                assert forall|k: Key| #[trigger] self.links@.has(k) implies self.links@.map[k]@.now
                    == self.now by {
                    assert(before.has(k));
                }
                Ok(())
            },
            None => Err(Error::new(ErrorKind::ConnectionRefused, Cause::Refused)),
        }
    }

    /// Hands a host the messages that are ready for it.
    pub fn deliver_messages(&mut self, dst: &mut Host)
        requires
            old(self).wf(),
            old(dst).wf(),
            old(self)@.is_deliverable(old(dst)@.addr),
        ensures
            final(self).wf(),
            final(dst).wf(),
            final(self)@ == old(self)@.drained(old(dst)@.addr),
            final(dst)@ == old(self)@.delivered(old(dst)@, old(self)@.order.len() as int),
    {
        let a = dst.addr;
        let ghost start = self@;
        let ghost first = self.links@;
        let ghost h = dst@;
        let n: usize = self.links.len();
        let mut i: usize = 0;
        while i < n
            invariant
                i <= n,
                n == start.order.len(),
                n == first.order.len(),
                a == h.addr,
                start == old(self)@,
                first == old(self).links@,
                start.order == shown_order(first),
                start.links == shown_links(first),
                links_wf(first),
                links_wf(self.links@),
                self.links@.order == first.order,
                self.latency == start.latency,
                self.now == start.now,
                start.is_deliverable(a),
                dst.wf(),
                dst@.addr == a,
                dst@ == start.delivered(h, i as int),
                shown_order(self.links@) == start.order,
                forall|k: int|
                    0 <= k < n ==> (#[trigger] self.links@.map[first.order[k]])@ == (if k < i
                        && touches(first.nth(k)@.pair, a) {
                        first.nth(k)@.drained(a)
                    } else {
                        first.nth(k)@
                    }),
            decreases n - i,
        {
            let ghost before = self.links@;
            proof {
                lemma_at(before, i as int);
                lemma_at(first, i as int);
            }
            let key = match self.links.get_index(i) {
                Some((key, _)) => key,
                None => {
                    return;
                },
            };
            assert(before.has(key));
            assert(before.map[first.order[i as int]]@ == first.nth(i as int)@);
            match self.links.get_mut(key) {
                Some(link) => {
                    let ghost here = *link;
                    let p = link.pair;
                    if p.0 == a || p.1 == a {
                        proof {
                            assert(start.links.contains_key(start.order[i as int]));
                            assert forall|j: int| 0 <= j < here@.ready[a].len() implies
                                host::is_taken_in((#[trigger] here@.ready[a][j]).packet) by {
                                assert(here@.ready[a][j] == start.links[start.order[i as
                                    int]].ready[a][j]);
                            }
                            lemma_received_addr(
                                dst@,
                                here@.ready[a],
                                here@.ready[a].len() as int,
                            );
                        }
                        link.deliver_messages(dst);
                    }
                    let ghost changed = *link;
                    proof {
                        assert(p.key() == key);
                        lemma_link_changed(before, p, changed);
                    }
                },
                None => {},
            }
            proof {
                assert forall|k: int| 0 <= k < n implies (#[trigger] self.links@.map[first.order[k]])@
                    == (if k < i + 1 && touches(first.nth(k)@.pair, a) {
                    first.nth(k)@.drained(a)
                } else {
                    first.nth(k)@
                }) by {
                    if k != i {
                        assert(first.order[k] != first.order[i as int]);
                        assert(self.links@.map[first.order[k]] == before.map[first.order[k]]);
                    }
                }
            }
            i = i + 1;
        }
        proof {
            lemma_keys();
            assert forall|p: Pair| #[trigger] self@.links.contains_key(p)
                <==> start.drained(a).links.contains_key(p) by {
                assert(pair_key()(p) == p.key());
                assert(self.links@.has(p.key()) <==> first.has(p.key())) by {
                    assert(self.links@.map.contains_key(p.key()) <==> self.links@.order.contains(
                        p.key(),
                    ));
                    assert(first.map.contains_key(p.key()) <==> first.order.contains(p.key()));
                }
            }
            assert forall|p: Pair| #[trigger] self@.links.contains_key(p) implies self@.links[p]
                == start.drained(a).links[p] by {
                assert(pair_key()(p) == p.key());
                let k = self.links@.lemma_index(p.key());
                assert(self.links@.map[first.order[k]]@ == self@.links[p]);
            }
            assert(self@.links =~= start.drained(a).links);
            assert forall|k: Key| #[trigger] self.links@.has(k) implies self.links@.map[k]@.now
                == self.now by {
                let j = self.links@.lemma_index(k);
                first.lemma_nth(j);
                assert(self.links@.map[first.order[j]]@.now == self.now);
            }
        }
    }

    /// Moves the time on and makes ready what is due.
    pub fn tick_by(&mut self, duration: Duration)
        requires
            old(self).wf(),
            old(self)@.now.nanos + duration.nanos <= u128::MAX,
        ensures
            final(self).wf(),
            final(self)@ == old(self)@.ticked(duration),
    {
        let ghost start = self@;
        let ghost first = self.links@;
        self.now = self.now.plus(duration);
        let now = self.now;
        let n: usize = self.links.len();
        let mut i: usize = 0;
        while i < n
            invariant
                i <= n,
                n == first.order.len(),
                start == old(self)@,
                first == old(self).links@,
                start.order == shown_order(first),
                start.links == shown_links(first),
                links_wf(first),
                links_wf(self.links@),
                self.links@.order == first.order,
                self.latency == start.latency,
                self.now == now,
                shown_order(self.links@) == start.order,
                forall|k: int|
                    0 <= k < n ==> (#[trigger] self.links@.map[first.order[k]])@ == (if k < i {
                        first.nth(k)@.ticked(now)
                    } else {
                        first.nth(k)@
                    }),
            decreases n - i,
        {
            let ghost before = self.links@;
            proof {
                lemma_at(before, i as int);
            }
            let key = match self.links.get_index(i) {
                Some((key, _)) => key,
                None => {
                    return;
                },
            };
            assert(before.has(key));
            match self.links.get_mut(key) {
                Some(link) => {
                    let p = link.pair;
                    link.tick(now);
                    let ghost changed = *link;
                    proof {
                        assert(p.key() == key);
                        lemma_link_changed(before, p, changed);
                    }
                },
                None => {},
            }
            proof {
                assert forall|k: int| 0 <= k < n implies (#[trigger] self.links@.map[first.order[k]])@
                    == (if k < i + 1 {
                    first.nth(k)@.ticked(now)
                } else {
                    first.nth(k)@
                }) by {
                    if k != i {
                        assert(first.order[k] != first.order[i as int]);
                        assert(self.links@.map[first.order[k]] == before.map[first.order[k]]);
                    }
                }
            }
            i = i + 1;
        }
        proof {
            lemma_keys();
            assert forall|p: Pair| #[trigger] self@.links.contains_key(p)
                <==> start.ticked(duration).links.contains_key(p) by {
                assert(pair_key()(p) == p.key());
                assert(self.links@.map.contains_key(p.key()) <==> self.links@.order.contains(
                    p.key(),
                ));
                assert(first.map.contains_key(p.key()) <==> first.order.contains(p.key()));
            }
            assert forall|p: Pair| #[trigger] self@.links.contains_key(p) implies self@.links[p]
                == start.ticked(duration).links[p] by {
                assert(pair_key()(p) == p.key());
                let k = self.links@.lemma_index(p.key());
                assert(self.links@.map[first.order[k]]@ == self@.links[p]);
            }
            assert(self@.links =~= start.ticked(duration).links);
            assert forall|k: Key| #[trigger] self.links@.has(k) implies self.links@.map[k]@.now
                == self.now by {
                let j = self.links@.lemma_index(k);
                assert(self.links@.map[first.order[j]]@.now == self.now);
            }
        }
    }
}

impl LinkView {
    /// The link with the message at the index to be delivered at once.
    pub open spec fn delivered_at(self, j: int) -> LinkView {
        LinkView { sent: self.sent.update(j, self.sent[j].released(self.now)), ..self }
    }
}

impl Link {
    fn deliver_at(&mut self, j: usize)
        requires
            old(self).wf(),
            j < old(self)@.sent.len(),
        ensures
            final(self).wf(),
            final(self)@ == old(self)@.delivered_at(j as int),
    {
        let now = self.now;
        let ghost before = self.sent@;
        match self.sent.remove(j) {
            Some(sent) => {
                let mut sent = sent;
                sent.deliver(now);
                self.sent.insert(j, sent);
            },
            None => {},
        }
        assert(shown_sent(self.sent@) =~= old(self)@.delivered_at(j as int).sent);
    }
}

impl TopologyView {
    /// The network with the link at the index changed.
    pub open spec fn with_link(self, i: int, link: LinkView) -> TopologyView {
        TopologyView { links: self.links.insert(self.order[i], link), ..self }
    }
}

/// Goes through the links of a network, in the order in which they came.
#[derive(Clone, Copy, Debug, PartialEq, Eq, Structural)]
pub struct LinksIter {
    /// The index of the next link.
    pub next: usize,
}

/// Goes through the messages on a link that are not delivered yet, the oldest first.
#[derive(Clone, Copy, Debug, PartialEq, Eq, Structural)]
pub struct LinkIter {
    /// The index of the link.
    pub link: usize,
    /// The index of the next message.
    pub next: usize,
}

/// A message that is on its way from one host to another.
#[derive(Clone, Copy, Debug, PartialEq, Eq, Structural)]
pub struct SentRef {
    /// The index of the link.
    pub link: usize,
    /// The index of the message.
    pub index: usize,
}

impl LinkIter {
    /// Whether the network has the link.
    pub open spec fn is_in(self, top: TopologyView) -> bool {
        self.link < top.order.len()
    }
}

impl SentRef {
    /// The link that the message is on.
    pub open spec fn on(self, top: TopologyView) -> LinkView {
        top.links[top.order[self.link as int]]
    }

    /// Whether the network has the message.
    pub open spec fn is_in(self, top: TopologyView) -> bool {
        self.link < top.order.len() && self.index < self.on(top).sent.len()
    }
}

impl Topology {
    /// Goes through the links.
    pub fn iter_mut(&self) -> (r: LinksIter)
        ensures
            r == (LinksIter { next: 0 }),
    {
        LinksIter { next: 0 }
    }

    /// Whether the two hosts have a link.
    pub fn is_linked(&self, a: IpAddr, b: IpAddr) -> (r: bool)
        ensures
            r == self@.linked(a, b),
    {
        if a == b {
            return false;
        }
        let p = Pair::new(a, b);
        assert(pair_key()(p) == p.key());
        self.links.get(p.key()).is_some()
    }

    /// How long messages travel between two hosts: as the link says, where it has a setting of
    /// its own.
    pub fn link_latency(&self, a: IpAddr, b: IpAddr) -> (r: Latency)
        ensures
            r == (if self@.linked(a, b) {
                self@.links[pair(a, b)].latency_or(self@.latency)
            } else {
                self@.latency
            }),
    {
        if a == b {
            return self.latency;
        }
        let p = Pair::new(a, b);
        assert(pair_key()(p) == p.key());
        match self.links.get(p.key()) {
            Some(link) => match link.latency {
                Some(l) => l,
                None => self.latency,
            },
            None => self.latency,
        }
    }

    /// Whether the link of two hosts can carry a further message, where they have one.
    pub fn can_send(&self, a: IpAddr, b: IpAddr) -> (r: bool)
        ensures
            r == (self@.linked(a, b) ==> self@.links[pair(a, b)].can_send(self@.latency)),
    {
        if a == b {
            return true;
        }
        let p = Pair::new(a, b);
        assert(pair_key()(p) == p.key());
        match self.links.get(p.key()) {
            Some(link) => link.can_send(self.latency),
            None => true,
        }
    }

    /// Whether the time can move on by so much.
    pub fn can_tick_by(&self, duration: Duration) -> (r: bool)
        ensures
            r == (self@.now.nanos + duration.nanos <= u128::MAX),
    {
        duration.nanos <= u128::MAX - self.now.nanos
    }

    /// Whether the host takes in everything that is ready for it.
    pub fn can_deliver(&self, a: IpAddr) -> (r: bool)
        requires
            self.wf(),
        ensures
            r == self@.is_deliverable(a),
    {
        proof {
            self.lemma_wf();
        }
        let ghost v = self@;
        let n: usize = self.links.len();
        let mut i: usize = 0;
        while i < n
            invariant
                i <= n,
                v == self@,
                n == v.order.len(),
                self.wf(),
                v.wf(),
                forall|k: int, j: int|
                    0 <= k < i && touches(v.order[k], a) && 0 <= j
                        < v.links[v.order[k]].ready[a].len() ==> host::is_taken_in(
                        (#[trigger] v.links[v.order[k]].ready[a][j]).packet,
                    ),
            decreases n - i,
        {
            let link = self.link_at(i);
            proof {
                assert(v.order.contains(v.order[i as int]));
                assert(v.links.contains_key(v.order[i as int]));
            }
            let p = link.pair;
            if (p.0 == a || p.1 == a) && !link.can_deliver(a) {
                return false;
            }
            i = i + 1;
        }
        proof {
            assert forall|p: Pair, j: int|
                v.links.contains_key(p) && touches(p, a) && 0 <= j < v.links[p].ready[a].len()
                implies host::is_taken_in((#[trigger] v.links[p].ready[a][j]).packet) by {
                let k = choose|k: int| 0 <= k < v.order.len() && v.order[k] == p;
                assert(v.links[v.order[k]].ready[a][j] == v.links[p].ready[a][j]);
            }
        }
        true
    }

    /// Whether a link carries the request for a connection with the number.
    pub fn carries(&self, ack: u64) -> (r: bool)
        requires
            self.wf(),
        ensures
            r == self@.carries(ack),
    {
        proof {
            self.lemma_wf();
        }
        let n: usize = self.links.len();
        let mut i: usize = 0;
        while i < n
            invariant
                i <= n,
                n == self@.order.len(),
                self.wf(),
                self@.wf(),
                forall|k: int|
                    0 <= k < i ==> !(self@.links[#[trigger] self@.order[k]].carries(ack)),
            decreases n - i,
        {
            let link = self.link_at(i);
            proof {
                assert(self@.order.contains(self@.order[i as int]));
                assert(self@.links.contains_key(self@.order[i as int]));
            }
            if link.carries(ack) {
                return true;
            }
            i = i + 1;
        }
        proof {
            assert forall|p: Pair| #[trigger] self@.links.contains_key(p) implies !(
            self@.links[p].carries(ack)) by {
                let k = choose|k: int| 0 <= k < self@.order.len() && self@.order[k] == p;
                assert(self@.order[k] == p);
            }
        }
        false
    }

    fn link_at(&self, i: usize) -> (r: &Link)
        requires
            self.wf(),
            i < self@.order.len(),
        ensures
            r@ == self@.links[self@.order[i as int]],
            r.wf(),
    {
        proof {
            lemma_at(self.links@, i as int);
        }
        self.links.get_index(i).unwrap().1
    }
}

impl LinksIter {
    /// The next link.
    pub fn next(&mut self, top: &Topology) -> (r: Option<LinkIter>)
        ensures
            if old(self).next < top@.order.len() {
                &&& r == Some(LinkIter { link: old(self).next, next: 0 })
                &&& final(self).next == old(self).next + 1
            } else {
                r is None && *final(self) == *old(self)
            },
    {
        let i: usize = self.next;
        if i < top.links.len() {
            self.next = i + 1;
            Some(LinkIter { link: i, next: 0 })
        } else {
            None
        }
    }
}

impl LinkIter {
    /// The two hosts at the ends of the link, in the order of their addresses.
    pub fn pair(&self, top: &Topology) -> (r: (IpAddr, IpAddr))
        requires
            top.wf(),
            self.is_in(top@),
        ensures
            Pair(r.0, r.1) == top@.links[top@.order[self.link as int]].pair,
    {
        let link = top.link_at(self.link);
        (link.pair.0, link.pair.1)
    }

    /// The next message on the link.
    pub fn next(&mut self, top: &Topology) -> (r: Option<SentRef>)
        requires
            top.wf(),
            old(self).is_in(top@),
        ensures
            final(self).link == old(self).link,
            if old(self).next < top@.links[top@.order[old(self).link as int]].sent.len() {
                &&& r == Some(SentRef { link: old(self).link, index: old(self).next })
                &&& final(self).next == old(self).next + 1
            } else {
                r is None && final(self).next == old(self).next
            },
    {
        let link = top.link_at(self.link);
        let j: usize = self.next;
        if j < link.sent.len() {
            self.next = j + 1;
            Some(SentRef { link: self.link, index: j })
        } else {
            None
        }
    }

    /// Has every message on the link delivered the next time that the network moves on.
    pub fn deliver_all(self, top: &mut Topology)
        requires
            old(top).wf(),
            self.is_in(old(top)@),
        ensures
            final(top).wf(),
            final(top)@ == old(top)@.with_link(
                self.link as int,
                old(top)@.links[old(top)@.order[self.link as int]].flushed(),
            ),
    {
        let ghost before = top.links@;
        proof {
            lemma_at(before, self.link as int);
        }
        let key = top.links.get_index(self.link).unwrap().0;
        match top.links.get_mut(key) {
            Some(link) => {
                let p = link.pair;
                link.flush();
                let ghost changed = *link;
                proof {
                    assert(p.key() == key);
                    lemma_link_changed(before, p, changed);
                }
            },
            None => {},
        }
        proof {
            assert forall|k: Key| #[trigger] top.links@.has(k) implies top.links@.map[k]@.now
                == top.now by {
                assert(before.has(k));
            }
        }
    }
}

impl SentRef {
    /// Where the message comes from and where it goes.
    pub fn pair(&self, top: &Topology) -> (r: (SocketAddr, SocketAddr))
        requires
            top.wf(),
            self.is_in(top@),
        ensures
            r.0 == self.on(top@).sent[self.index as int].src,
            r.1 == self.on(top@).sent[self.index as int].dst,
    {
        let link = top.link_at(self.link);
        assert(link@.sent[self.index as int] == link.sent@[self.index as int]@);
        let sent = &link.sent[self.index];
        (sent.src, sent.dst)
    }

    /// What the message says.
    pub fn protocol<'a>(&self, top: &'a Topology) -> (r: &'a Protocol)
        requires
            top.wf(),
            self.is_in(top@),
        ensures
            r@ == self.on(top@).sent[self.index as int].packet,
    {
        let link = top.link_at(self.link);
        assert(link@.sent[self.index as int] == link.sent@[self.index as int]@);
        &link.sent[self.index].protocol
    }

    /// Has the message delivered the next time that the network moves on.
    pub fn deliver(self, top: &mut Topology)
        requires
            old(top).wf(),
            self.is_in(old(top)@),
        ensures
            final(top).wf(),
            final(top)@ == old(top)@.with_link(
                self.link as int,
                self.on(old(top)@).delivered_at(self.index as int),
            ),
    {
        let ghost before = top.links@;
        proof {
            lemma_at(before, self.link as int);
        }
        let key = top.links.get_index(self.link).unwrap().0;
        match top.links.get_mut(key) {
            Some(link) => {
                let p = link.pair;
                link.deliver_at(self.index);
                let ghost changed = *link;
                proof {
                    assert(p.key() == key);
                    lemma_link_changed(before, p, changed);
                }
            },
            None => {},
        }
        proof {
            assert forall|k: Key| #[trigger] top.links@.has(k) implies top.links@.map[k]@.now
                == top.now by {
                assert(before.has(k));
            }
        }
    }
}

/// A message travels no shorter than the shortest time and no longer than the longest.
pub proof fn law_latency_is_bounded(l: Latency, extra: Duration)
    requires
        l.min_message_latency.nanos <= l.max_message_latency.nanos,
    ensures
        l.min_message_latency.nanos <= l.delay(extra) <= l.max_message_latency.nanos,
{
}

/// A message that is sent over a healthy link that carries no other is ready for its host once
/// its time is over, and not before.
pub proof fn law_message_arrives_in_time(
    l: LinkView,
    global: Latency,
    fate: Fate,
    src: SocketAddr,
    dst: SocketAddr,
    packet: Packet,
    later: Duration,
)
    requires
        l.sent.len() == 0,
        l.state_a_b is Healthy && l.state_b_a is Healthy,
        !fate.fail,
        l.can_send(global),
        l.now.nanos <= later.nanos,
        l.ready.contains_key(dst.ip),
    ensures
        ({
            let after = l.enqueued(global, fate, src, dst, packet).ticked(later);
            let arrives = l.now.nanos + l.latency_or(global).delay(fate.extra);
            &&& later.nanos >= arrives ==> after.ready[dst.ip] == l.ready[dst.ip].push(
                EnvelopeView { src, dst, packet },
            ) && after.sent.len() == 0
            &&& later.nanos < arrives ==> after.ready == l.ready && after.sent.len() == 1
        }),
{
    let queued = l.queued(global, fate.extra, src, dst, packet);
    assert(l.shaken(fate) == l);
    let m = queued.sent[0];
    assert(queued.sent.len() == 1);
    let first = queued.processed();
    reveal_with_fuel(kept, 2);
    reveal_with_fuel(filled, 2);
    assert(first.sent.len() <= 1);
    let moved = LinkView { now: later, ..first };
    if first.sent.len() == 1 {
        assert(first.sent[0] == m);
        assert(first.ready == l.ready);
    } else {
        assert(m.is_due(l.now));
    }
    assert(moved.processed() == l.enqueued(global, fate, src, dst, packet).ticked(later));
}

/// What is ready for a host reaches its socket: a datagram is the last in line where a socket
/// takes it.
pub proof fn law_ready_datagram_reaches_socket(
    h: HostView,
    src: SocketAddr,
    dst: SocketAddr,
    data: Seq<u8>,
)
    requires
        h.udp.takes(dst),
    ensures
        received_all(
            h,
            seq![EnvelopeView { src, dst, packet: Packet::Datagram(data) }],
            1,
        ).udp.binds[dst.port].queue == h.udp.binds[dst.port].queue.push((data, src)),
{
    reveal_with_fuel(received_all, 2);
}

/// A message that is sent over a broken direction of a link changes nothing, while the other
/// direction carries messages as before.
pub proof fn law_partition_drops_messages(
    l: LinkView,
    global: Latency,
    extra: Duration,
    src: SocketAddr,
    dst: SocketAddr,
    packet: Packet,
)
    requires
        src.ip != dst.ip,
    ensures
        l.oneway(src.ip, dst.ip, State::ExplicitPartition).queued(global, extra, src, dst, packet)
            == l.oneway(src.ip, dst.ip, State::ExplicitPartition),
        l.both(State::ExplicitPartition).queued(global, extra, src, dst, packet) == l.both(
            State::ExplicitPartition,
        ),
        l.oneway(dst.ip, src.ip, State::ExplicitPartition).state(src.ip, dst.ip) == l.state(
            src.ip,
            dst.ip,
        ),
{
    addr::law_addresses_are_ordered(src.ip, dst.ip);
}

/// Breaking both directions one after the other is breaking the link, and repairing both is
/// repairing it. What is done to one direction is undone by the opposite.
pub proof fn law_directions_make_a_link(l: LinkView, a: IpAddr, b: IpAddr)
    requires
        a != b,
    ensures
        l.oneway(a, b, State::ExplicitPartition).oneway(b, a, State::ExplicitPartition) == l.both(
            State::ExplicitPartition,
        ),
        l.both(State::ExplicitPartition).oneway(a, b, State::Healthy).oneway(b, a, State::Healthy)
            == l.both(State::Healthy),
        l.both(State::ExplicitPartition).oneway(a, b, State::Healthy).state(a, b) is Healthy,
        l.both(State::ExplicitPartition).oneway(a, b, State::Healthy).state(b, a)
            is ExplicitPartition,
        l.state(a, b) is Healthy ==> l.oneway(a, b, State::ExplicitPartition).oneway(
            a,
            b,
            State::Healthy,
        ) == l,
{
    addr::law_addresses_are_ordered(a, b);
}

/// After a partition one way, no message passes that way, now or later, unless chance breaks or
/// repairs the other way. Messages pass the other way as they did, unless chance would have
/// broken or repaired the way that was cut. Two such partitions are one of the link, and a repair the same way
/// undoes it.
pub proof fn law_oneway_partition(
    t: TopologyView,
    fate: Fate,
    src: SocketAddr,
    dst: SocketAddr,
    packet: Packet,
    duration: Duration,
)
    requires
        t.linked(src.ip, dst.ip),
        fate.fail ==> !(t.links[pair(src.ip, dst.ip)].state(dst.ip, src.ip) is Healthy),
        fate.repair ==> !(t.links[pair(src.ip, dst.ip)].state(dst.ip, src.ip) is RandPartition),
    ensures
        ({
            let p = pair(src.ip, dst.ip);
            let cut = t.acted(LinkAction::PartitionOneway, src.ip, dst.ip);
            let sent = cut.enqueued(fate, src, dst, packet);
            let back = cut.enqueued(fate, dst, src, packet);
            &&& sent.links[p] == cut.links[p].processed()
            &&& sent.links[p].state(src.ip, dst.ip) is ExplicitPartition
            &&& cut.ticked(duration).links[p].state(src.ip, dst.ip) is ExplicitPartition
            &&& !(fate.fail && t.links[p].state(src.ip, dst.ip) is Healthy) && !(fate.repair
                && t.links[p].state(src.ip, dst.ip) is RandPartition) ==> back == t.enqueued(fate, dst, src, packet).acted(
                LinkAction::PartitionOneway,
                src.ip,
                dst.ip,
            )
            &&& cut.acted(LinkAction::PartitionOneway, dst.ip, src.ip) == t.acted(
                LinkAction::Partition,
                src.ip,
                dst.ip,
            )
            &&& t.links[p].state(src.ip, dst.ip) is Healthy ==> cut.acted(
                LinkAction::RepairOneway,
                src.ip,
                dst.ip,
            ) == t
        }),
{
    addr::law_addresses_are_ordered(src.ip, dst.ip);
    let p = pair(src.ip, dst.ip);
    assert(pair(dst.ip, src.ip) == p);
    let cut = t.acted(LinkAction::PartitionOneway, src.ip, dst.ip);
    let back = cut.enqueued(fate, dst, src, packet);
    let other = t.enqueued(fate, dst, src, packet).acted(
        LinkAction::PartitionOneway,
        src.ip,
        dst.ip,
    );
    if !(fate.fail && t.links[p].state(src.ip, dst.ip) is Healthy) && !(fate.repair
        && t.links[p].state(src.ip, dst.ip) is RandPartition) {
        assert(back.links[p] =~= other.links[p]);
        assert(back.links =~= other.links);
    }
    assert(cut.acted(LinkAction::PartitionOneway, dst.ip, src.ip).links =~= t.acted(
        LinkAction::Partition,
        src.ip,
        dst.ip,
    ).links);
    if t.links[p].state(src.ip, dst.ip) is Healthy {
        assert(cut.acted(LinkAction::RepairOneway, src.ip, dst.ip).links =~= t.links);
    }
}

/// A message that is sent over a link on hold is kept whatever the time, and is due as soon as
/// the link is released.
pub proof fn law_held_message_waits_for_release(
    l: LinkView,
    global: Latency,
    extra: Duration,
    src: SocketAddr,
    dst: SocketAddr,
    packet: Packet,
    now: Duration,
)
    requires
        l.both(State::Hold) == l,
    ensures
        ({
            let sent = l.queued(global, extra, src, dst, packet);
            let n = l.sent.len() as int;
            &&& sent.sent.len() == n + 1
            &&& !sent.sent[n].is_due(now)
            &&& sent.released().sent[n].is_due(l.now)
            &&& sent.released().sent[n].envelope() == (EnvelopeView { src, dst, packet })
        }),
{
}

/// No message is kept once the link is released.
pub proof fn law_release_keeps_nothing(l: LinkView, i: int)
    requires
        0 <= i < l.sent.len(),
    ensures
        !(l.released().sent[i].status is Hold),
        l.released().sent[i].envelope() == l.sent[i].envelope(),
        l.released().state_a_b is Healthy && l.released().state_b_a is Healthy,
{
}

/// What is due becomes ready, the rest stays, and nothing is lost or doubled: each message is
/// in one of the two.
pub proof fn law_due_messages_become_ready(l: LinkView, i: int)
    requires
        0 <= i < l.sent.len(),
        forall|a: IpAddr| l.ready.contains_key(a),
    ensures
        l.sent[i].is_due(l.now) ==> l.processed().ready[l.sent[i].dst.ip].contains(
            l.sent[i].envelope(),
        ),
        !l.sent[i].is_due(l.now) ==> l.processed().sent.contains(l.sent[i]),
        forall|j: int|
            0 <= j < l.processed().sent.len() ==> !(#[trigger] l.processed().sent[j]).is_due(l.now),
        forall|a: IpAddr, j: int|
            0 <= j < l.ready[a].len() ==> l.processed().ready[a][j] == #[trigger] l.ready[a][j],
{
    let n = l.sent.len() as int;
    lemma_kept(l.sent, l.now, n);
    lemma_filled(l.ready, l.sent, l.now, n);
    if l.sent[i].is_due(l.now) {
        lemma_filled_has(l.ready, l.sent, l.now, n, i);
    } else {
        lemma_kept_has(l.sent, l.now, n, i);
    }
}

/// No message is lost or doubled: those that stay and those that became ready are as many as
/// were sent.
pub proof fn law_no_message_is_lost(l: LinkView)
    ensures
        l.processed().sent.len() + due_count(l.sent, l.now, l.sent.len() as int) == l.sent.len(),
{
    lemma_counts(l.sent, l.now, l.sent.len() as int);
}

/// How many of the first `n` messages are due.
pub open spec fn due_count(sent: Seq<SentView>, now: Duration, n: int) -> int
    decreases n,
{
    if n <= 0 {
        0
    } else if sent[n - 1].is_due(now) {
        due_count(sent, now, n - 1) + 1
    } else {
        due_count(sent, now, n - 1)
    }
}

proof fn lemma_counts(sent: Seq<SentView>, now: Duration, n: int)
    requires
        0 <= n <= sent.len(),
    ensures
        kept(sent, now, n).len() + due_count(sent, now, n) == n,
    decreases n,
{
    if n > 0 {
        lemma_counts(sent, now, n - 1);
    }
}

proof fn lemma_kept(sent: Seq<SentView>, now: Duration, n: int)
    requires
        0 <= n <= sent.len(),
    ensures
        forall|j: int|
            0 <= j < kept(sent, now, n).len() ==> !(#[trigger] kept(sent, now, n)[j]).is_due(now),
    decreases n,
{
    if n > 0 {
        lemma_kept(sent, now, n - 1);
        let before = kept(sent, now, n - 1);
        let here = kept(sent, now, n);
        assert forall|j: int| 0 <= j < here.len() implies !(#[trigger] here[j]).is_due(now) by {
            if j < before.len() {
                assert(here[j] == before[j]);
            }
        }
    }
}

proof fn lemma_kept_has(sent: Seq<SentView>, now: Duration, n: int, i: int)
    requires
        0 <= i < n <= sent.len(),
        !sent[i].is_due(now),
    ensures
        kept(sent, now, n).contains(sent[i]),
    decreases n,
{
    let here = kept(sent, now, n);
    if i == n - 1 {
        assert(here[here.len() - 1] == sent[i]);
    } else {
        lemma_kept_has(sent, now, n - 1, i);
        let before = kept(sent, now, n - 1);
        let j = choose|j: int| 0 <= j < before.len() && before[j] == sent[i];
        assert(here[j] == sent[i]);
    }
}

proof fn lemma_filled(
    ready: Map<IpAddr, Seq<EnvelopeView>>,
    sent: Seq<SentView>,
    now: Duration,
    n: int,
)
    requires
        0 <= n <= sent.len(),
        forall|a: IpAddr| ready.contains_key(a),
    ensures
        forall|a: IpAddr| filled(ready, sent, now, n).contains_key(a),
        forall|a: IpAddr| filled(ready, sent, now, n)[a].len() >= #[trigger] ready[a].len(),
        forall|a: IpAddr, j: int|
            0 <= j < ready[a].len() ==> filled(ready, sent, now, n)[a][j] == #[trigger] ready[a][j],
    decreases n,
{
    if n > 0 {
        lemma_filled(ready, sent, now, n - 1);
        assert forall|a: IpAddr| filled(ready, sent, now, n).contains_key(a) by {
            assert(filled(ready, sent, now, n - 1).contains_key(a));
        }
    }
}

proof fn lemma_filled_has(
    ready: Map<IpAddr, Seq<EnvelopeView>>,
    sent: Seq<SentView>,
    now: Duration,
    n: int,
    i: int,
)
    requires
        0 <= i < n <= sent.len(),
        sent[i].is_due(now),
        forall|a: IpAddr| ready.contains_key(a),
    ensures
        filled(ready, sent, now, n)[sent[i].dst.ip].contains(sent[i].envelope()),
    decreases n,
{
    let a = sent[i].dst.ip;
    let here = filled(ready, sent, now, n)[a];
    let before = filled(ready, sent, now, n - 1)[a];
    if i == n - 1 {
        assert(here[here.len() - 1] == sent[i].envelope());
    } else {
        lemma_filled_has(ready, sent, now, n - 1, i);
        let j = choose|j: int| 0 <= j < before.len() && before[j] == sent[i].envelope();
        assert(here[j] == sent[i].envelope());
    }
}

proof fn lemma_kept_from(sent: Seq<SentView>, now: Duration, n: int, j: int)
    requires
        0 <= n <= sent.len(),
        0 <= j < kept(sent, now, n).len(),
    ensures
        exists|i: int| 0 <= i < n && #[trigger] sent[i] == kept(sent, now, n)[j],
    decreases n,
{
    let before = kept(sent, now, n - 1);
    let here = kept(sent, now, n);
    if j < before.len() {
        assert(here[j] == before[j]);
        lemma_kept_from(sent, now, n - 1, j);
    } else {
        assert(here[j] == sent[n - 1]);
    }
}

proof fn lemma_filled_from(
    ready: Map<IpAddr, Seq<EnvelopeView>>,
    sent: Seq<SentView>,
    now: Duration,
    n: int,
    a: IpAddr,
    j: int,
)
    requires
        0 <= n <= sent.len(),
        0 <= j < filled(ready, sent, now, n)[a].len(),
    ensures
        ({
            let e = filled(ready, sent, now, n)[a][j];
            ||| exists|i: int| 0 <= i < ready[a].len() && #[trigger] ready[a][i] == e
            ||| exists|i: int| 0 <= i < n && (#[trigger] sent[i]).envelope() == e
        }),
    decreases n,
{
    if n > 0 {
        let before = filled(ready, sent, now, n - 1)[a];
        let here = filled(ready, sent, now, n)[a];
        if j < before.len() {
            assert(here[j] == before[j]);
            lemma_filled_from(ready, sent, now, n - 1, a, j);
        } else {
            assert(here[j] == sent[n - 1].envelope());
        }
    }
}

/// As the network moves on, a link neither loses nor makes up a request for a connection.
pub proof fn law_requests_stay_on_the_link(l: LinkView, ack: u64)
    requires
        forall|a: IpAddr| l.ready.contains_key(a),
        forall|i: int|
            0 <= i < l.sent.len() ==> touches(l.pair, (#[trigger] l.sent[i]).dst.ip),
    ensures
        l.processed().carries(ack) == l.carries(ack),
{
    let after = l.processed();
    let n = l.sent.len() as int;
    let request = Packet::Syn(Syn { ack });
    lemma_filled(l.ready, l.sent, l.now, n);
    if l.carries(ack) {
        if exists|i: int| 0 <= i < n && (#[trigger] l.sent[i]).packet == request {
            let i = choose|i: int| 0 <= i < n && (#[trigger] l.sent[i]).packet == request;
            law_due_messages_become_ready(l, i);
            if l.sent[i].is_due(l.now) {
                let queue = after.ready[l.sent[i].dst.ip];
                let j = choose|j: int| 0 <= j < queue.len() && queue[j] == l.sent[i].envelope();
                assert(queue[j].packet == request);
            } else {
                let j = choose|j: int|
                    0 <= j < after.sent.len() && after.sent[j] == l.sent[i];
                assert(after.sent[j].packet == request);
            }
        } else {
            let a = if has_request(l.ready[l.pair.0], ack) {
                l.pair.0
            } else {
                l.pair.1
            };
            let i = choose|i: int|
                0 <= i < l.ready[a].len() && (#[trigger] l.ready[a][i]).packet == request;
            assert(after.ready[a][i].packet == request);
        }
    }
    if after.carries(ack) {
        if exists|i: int| 0 <= i < after.sent.len() && (#[trigger] after.sent[i]).packet == request {
            let i = choose|i: int|
                0 <= i < after.sent.len() && (#[trigger] after.sent[i]).packet == request;
            lemma_kept_from(l.sent, l.now, n, i);
        } else {
            let a = if has_request(after.ready[l.pair.0], ack) {
                l.pair.0
            } else {
                l.pair.1
            };
            let i = choose|i: int|
                0 <= i < after.ready[a].len() && (#[trigger] after.ready[a][i]).packet == request;
            lemma_filled_from(l.ready, l.sent, l.now, n, a, i);
        }
    }
}

/// A request for a connection is on the link once it has been sent over it, unless the
/// direction is broken: it is lost then.
pub proof fn law_broken_links_lose_requests(
    l: LinkView,
    global: Latency,
    extra: Duration,
    src: SocketAddr,
    dst: SocketAddr,
    ack: u64,
)
    requires
        !l.carries(ack),
    ensures
        l.queued(global, extra, src, dst, Packet::Syn(Syn { ack })).carries(ack) == (l.state(
            src.ip,
            dst.ip,
        ) is Healthy || l.state(src.ip, dst.ip) is Hold),
{
    let after = l.queued(global, extra, src, dst, Packet::Syn(Syn { ack }));
    if after.sent.len() > l.sent.len() {
        assert(after.sent[l.sent.len() as int].packet == Packet::Syn(Syn { ack }));
    }
}

} // verus!
