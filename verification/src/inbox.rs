//! Messages that wait for a host.
use crate::addr;
use crate::addr::{Key, SocketAddr};
use crate::ordered;
use crate::ordered::{Entries, KeyMap};
use crate::time::Duration;
use std::collections::VecDeque;
use vstd::prelude::*;

verus! {

/// A host and how far it is.
#[derive(Clone, Copy, Debug, PartialEq, Eq, Structural)]
pub struct Dot {
    /// The host.
    pub host: SocketAddr,
    /// How far it is.
    pub version: u64,
}

/// A message that waits.
pub struct Envelope<M> {
    /// Who sent it.
    pub src: Dot,
    /// When it may be received.
    pub deliver_at: Duration,
    /// The message.
    pub message: M,
}

/// The messages that wait for a host, by sender.
#[verifier::reject_recursive_types(M)]
pub struct Inbox<M> {
    messages: KeyMap<(SocketAddr, VecDeque<Envelope<M>>)>,
}

/// The key of a sender.
pub open spec fn host_key() -> spec_fn(SocketAddr) -> Key {
    |a: SocketAddr| a.key()
}

proof fn lemma_keys()
    ensures
        ordered::is_faithful(host_key()),
{
    assert forall|a: SocketAddr, b: SocketAddr|
        #[trigger] host_key()(a) == #[trigger] host_key()(b) implies a == b by {
        addr::lemma_socket_keys(a, b);
    }
}

spec fn held_wf<M>(e: Entries<Key, (SocketAddr, VecDeque<Envelope<M>>)>) -> bool {
    &&& e.wf()
    &&& forall|k: Key| #[trigger] e.has(k) ==> e.map[k].0.key() == k
}

spec fn shown<M>(e: Entries<Key, (SocketAddr, VecDeque<Envelope<M>>)>) -> Entries<
    SocketAddr,
    Seq<Envelope<M>>,
> {
    Entries {
        order: e.order.map_values(|k: Key| e.map[k].0),
        map: ordered::rekeyed(e, host_key()).map_values(
            |h: (SocketAddr, VecDeque<Envelope<M>>)| h.1@,
        ),
    }
}

proof fn lemma_shown_has<M>(e: Entries<Key, (SocketAddr, VecDeque<Envelope<M>>)>, a: SocketAddr)
    requires
        held_wf(e),
    ensures
        shown(e).has(a) <==> e.has(a.key()),
        e.has(a.key()) ==> shown(e).map[a] == e.map[a.key()].1@,
        e.has(a.key()) ==> e.map[a.key()].0 == a,
{
    lemma_keys();
    assert(host_key()(a) == a.key());
    if e.has(a.key()) {
        assert(host_key()(e.map[a.key()].0) == host_key()(a));
    }
}

proof fn lemma_shown_with<M>(
    e: Entries<Key, (SocketAddr, VecDeque<Envelope<M>>)>,
    a: SocketAddr,
    h: (SocketAddr, VecDeque<Envelope<M>>),
)
    requires
        held_wf(e),
        h.0 == a,
    ensures
        held_wf(e.with(a.key(), h)),
        shown(e.with(a.key(), h)) == shown(e).with(a, h.1@),
{
    lemma_keys();
    let after = e.with(a.key(), h);
    e.lemma_with(a.key(), h);
    ordered::lemma_rekeyed_with(e, host_key(), a, h);
    assert(host_key()(a) == a.key());
    lemma_shown_has(e, a);
    assert(shown(after).map =~= shown(e).with(a, h.1@).map);
    assert forall|k: Key| #[trigger] after.has(k) implies after.map[k].0.key() == k by {
        if k != a.key() {
            assert(e.has(k));
        }
    }
    assert(shown(after).order =~= shown(e).with(a, h.1@).order) by {
        assert forall|i: int| 0 <= i < e.order.len() implies #[trigger] shown(after).order[i]
            == shown(e).order[i] by {
            e.lemma_nth(i);
        }
    }
}

impl<M> View for Inbox<M> {
    type V = Entries<SocketAddr, Seq<Envelope<M>>>;

    closed spec fn view(&self) -> Entries<SocketAddr, Seq<Envelope<M>>> {
        shown(self.messages@)
    }
}

/// Whether the oldest of the messages may be received.
pub open spec fn is_due<M>(queue: Seq<Envelope<M>>, now: Duration) -> bool {
    queue.len() > 0 && queue[0].deliver_at.nanos <= now.nanos
}

/// The index of the first sender, from the given one on, whose oldest message may be received,
/// or the number of senders.
pub open spec fn first_due<M>(
    v: Entries<SocketAddr, Seq<Envelope<M>>>,
    now: Duration,
    i: int,
) -> int
    decreases v.order.len() - i,
{
    if i >= v.order.len() {
        v.order.len() as int
    } else if is_due(v.nth(i), now) {
        i
    } else {
        first_due(v, now, i + 1)
    }
}

/// What waits once the message is added.
pub open spec fn sent<M>(
    v: Entries<SocketAddr, Seq<Envelope<M>>>,
    e: Envelope<M>,
) -> Entries<SocketAddr, Seq<Envelope<M>>> {
    let queue = if v.has(e.src.host) {
        v.map[e.src.host]
    } else {
        Seq::empty()
    };
    v.with(e.src.host, queue.push(e))
}

/// What waits once the oldest message of the sender is received.
pub open spec fn taken<M>(
    v: Entries<SocketAddr, Seq<Envelope<M>>>,
    a: SocketAddr,
) -> Entries<SocketAddr, Seq<Envelope<M>>> {
    v.with(a, v.map[a].skip(1))
}

impl<M> Inbox<M> {
    /// Whether the collection is well formed.
    pub closed spec fn wf(&self) -> bool {
        held_wf(self.messages@)
    }

    /// Nothing waits.
    pub fn new() -> (r: Self)
        ensures
            r.wf(),
            r@ == Entries::<SocketAddr, Seq<Envelope<M>>>::none(),
    {
        let r = Inbox { messages: KeyMap::new() };
        assert(r@ =~= Entries::none());
        r
    }

    /// Adds a message. The receiver is to be told.
    pub fn send(&mut self, envelope: Envelope<M>)
        requires
            old(self).wf(),
        ensures
            final(self).wf(),
            final(self)@ == sent(old(self)@, envelope),
    {
        let a = envelope.src.host;
        let key = a.key();
        let ghost before = self.messages@;
        let ghost value = envelope;
        proof {
            lemma_shown_has(before, a);
        }
        match self.messages.get_mut(key) {
            Some(held) => {
                held.1.push_back(envelope);
                let ghost changed = *held;
                proof {
                    lemma_shown_with(before, a, changed);
                }
            },
            None => {
                let mut queue: VecDeque<Envelope<M>> = VecDeque::new();
                queue.push_back(envelope);
                let ghost changed = (a, queue);
                proof {
                    assert(queue@ =~= Seq::empty().push(value));
                    lemma_shown_with(before, a, changed);
                }
                let _ = self.messages.insert(key, (a, queue));
            },
        }
    }

    fn find_due(&self, now: Duration) -> (r: Option<SocketAddr>)
        requires
            self.wf(),
        ensures
            match r {
                Some(a) => first_due(self@, now, 0) < self@.order.len() && a
                    == self@.order[first_due(self@, now, 0)] && self@.has(a) && is_due(
                    self@.map[a],
                    now,
                ),
                None => first_due(self@, now, 0) == self@.order.len(),
            },
    {
        let n: usize = self.messages.len();
        let ghost e = self.messages@;
        let mut i: usize = 0;
        while i < n
            invariant
                i <= n,
                e == self.messages@,
                n == e.order.len(),
                self.wf(),
                first_due(self@, now, 0) == first_due(self@, now, i as int),
            decreases n - i,
        {
            match self.messages.get_index(i) {
                Some((_, held)) => {
                    proof {
                        e.lemma_nth(i as int);
                        lemma_shown_has(e, held.0);
                        assert(self@.order[i as int] == held.0);
                    }
                    if held.1.len() > 0 && held.1[0].deliver_at.nanos <= now.nanos {
                        return Some(held.0);
                    }
                },
                None => {},
            }
            i = i + 1;
        }
        None
    }

    /// Whether the receiver is to be told that a message may be received.
    pub fn tick(&self, now: Duration) -> (r: bool)
        requires
            self.wf(),
        ensures
            r == (first_due(self@, now, 0) < self@.order.len()),
    {
        self.find_due(now).is_some()
    }

    /// Receives the oldest message of the first sender that has one which may be received.
    pub fn recv(&mut self, now: Duration) -> (r: Option<Envelope<M>>)
        requires
            old(self).wf(),
        ensures
            final(self).wf(),
            ({
                let i = first_due(old(self)@, now, 0);
                if i < old(self)@.order.len() {
                    let a = old(self)@.order[i];
                    &&& r == Some(old(self)@.map[a][0])
                    &&& final(self)@ == taken(old(self)@, a)
                } else {
                    r is None && final(self)@ == old(self)@
                }
            }),
    {
        match self.find_due(now) {
            Some(a) => {
                let ghost before = self.messages@;
                proof {
                    lemma_shown_has(before, a);
                }
                match self.messages.get_mut(a.key()) {
                    Some(held) => {
                        let ghost queue = held.1@;
                        let r = held.1.pop_front();
                        let ghost changed = *held;
                        proof {
                            assert(changed.1@ =~= queue.skip(1));
                            lemma_shown_with(before, a, changed);
                        }
                        r
                    },
                    None => None,
                }
            },
            None => None,
        }
    }

    /// Receives the oldest message of the sender, where it may be received.
    pub fn recv_from(&mut self, src: SocketAddr, now: Duration) -> (r: Option<Envelope<M>>)
        requires
            old(self).wf(),
        ensures
            final(self).wf(),
            if !old(self)@.has(src) {
                r is None && final(self)@ == old(self)@.with(src, Seq::empty())
            } else if is_due(old(self)@.map[src], now) {
                r == Some(old(self)@.map[src][0]) && final(self)@ == taken(old(self)@, src)
            } else {
                r is None && final(self)@ == old(self)@
            },
    {
        let ghost before = self.messages@;
        proof {
            lemma_shown_has(before, src);
        }
        match self.messages.get_mut(src.key()) {
            Some(held) => {
                let ghost queue = held.1@;
                let r = if held.1.len() > 0 && held.1[0].deliver_at.nanos <= now.nanos {
                    held.1.pop_front()
                } else {
                    None
                };
                let ghost changed = *held;
                proof {
                    lemma_shown_with(before, src, changed);
                    if is_due(queue, now) {
                        assert(changed.1@ =~= queue.skip(1));
                    } else {
                        assert(shown(before).with(src, queue) =~= shown(before));
                    }
                }
                r
            },
            None => {
                let queue: VecDeque<Envelope<M>> = VecDeque::new();
                let ghost changed = (src, queue);
                proof {
                    assert(queue@ =~= Seq::empty());
                    lemma_shown_with(before, src, changed);
                }
                let _ = self.messages.insert(src.key(), (src, queue));
                None
            },
        }
    }
}

/// The messages of one sender are received in the order in which they were sent: a further one
/// goes to the end.
pub proof fn law_messages_keep_their_order<M>(
    v: Entries<SocketAddr, Seq<Envelope<M>>>,
    e: Envelope<M>,
)
    requires
        v.has(e.src.host),
    ensures
        sent(v, e).map[e.src.host].drop_last() == v.map[e.src.host],
        sent(v, e).map[e.src.host].last() == e,
        v.map[e.src.host].len() > 0 ==> sent(v, e).map[e.src.host][0] == v.map[e.src.host][0],
{
    assert(sent(v, e).map[e.src.host].drop_last() =~= v.map[e.src.host]);
}

/// What is received is the oldest message of its sender, whose time has come, and no sender
/// before that one has such a message.
pub proof fn law_nothing_is_early<M>(
    v: Entries<SocketAddr, Seq<Envelope<M>>>,
    now: Duration,
)
    requires
        first_due(v, now, 0) < v.order.len(),
    ensures
        is_due(v.nth(first_due(v, now, 0)), now),
        forall|j: int| 0 <= j < first_due(v, now, 0) ==> !is_due(#[trigger] v.nth(j), now),
{
    lemma_first_due(v, now, 0);
}

proof fn lemma_first_due<M>(v: Entries<SocketAddr, Seq<Envelope<M>>>, now: Duration, i: int)
    requires
        0 <= i <= v.order.len(),
        first_due(v, now, i) < v.order.len(),
    ensures
        i <= first_due(v, now, i),
        is_due(v.nth(first_due(v, now, i)), now),
        forall|j: int| i <= j < first_due(v, now, i) ==> !is_due(#[trigger] v.nth(j), now),
    decreases v.order.len() - i,
{
    if i < v.order.len() && !is_due(v.nth(i), now) {
        lemma_first_due(v, now, i + 1);
    }
}

} // verus!
