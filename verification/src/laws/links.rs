//! Laws of the links between hosts: when messages arrive, in which order, and what chance and
//! tests do to links.
use crate::addr;
use crate::addr::{IpAddr, SocketAddr};
use crate::config::Latency;
use crate::envelope::{EnvelopeView, Packet};
use crate::host::HostView;
use crate::time::Duration;
use crate::top;
use crate::top::{
    DeliveryStatus, Fate, LinkAction, LinkView, Pair, SentView, State, TopologyView,
};
use crate::world;
use crate::world::WorldView;
use vstd::prelude::*;

verus! {

/// Whether the shortest time that a message takes is no longer than the longest, and that ends
/// before time does.
pub open spec fn times_add_up(l: LinkView, global: Latency) -> bool {
    let limits = match l.latency {
        Some(own) => own,
        None => global,
    };
    &&& limits.min_message_latency.nanos <= limits.max_message_latency.nanos
    &&& l.now.nanos + limits.max_message_latency.nanos <= u128::MAX
}

/// What of the messages is due at the time and goes to the address.
spec fn due_for(now: int, a: IpAddr) -> spec_fn(SentView) -> bool {
    |m: SentView|
        m.dst.ip == a && m.status is DeliverAfter && m.status->DeliverAfter_0.nanos <= now
}

/// What of the messages is not due at the time.
spec fn early(now: int) -> spec_fn(SentView) -> bool {
    |m: SentView| !(m.status is DeliverAfter && m.status->DeliverAfter_0.nanos <= now)
}

spec fn opened() -> spec_fn(SentView) -> EnvelopeView {
    |m: SentView| EnvelopeView { src: m.src, dst: m.dst, packet: m.packet }
}

proof fn lemma_kept(sent: Seq<SentView>, now: Duration, n: int)
    requires
        0 <= n <= sent.len(),
    ensures
        top::kept(sent, now, n) == sent.take(n).filter(early(now.nanos as int)),
    decreases n,
{
    reveal(Seq::filter);
    if n > 0 {
        lemma_kept(sent, now, n - 1);
        assert(sent.take(n).drop_last() =~= sent.take(n - 1));
    } else {
        assert(sent.take(0).filter(early(now.nanos as int)) =~= Seq::empty());
    }
}

proof fn lemma_filled(
    ready: Map<IpAddr, Seq<EnvelopeView>>,
    sent: Seq<SentView>,
    now: Duration,
    n: int,
    a: IpAddr,
)
    requires
        0 <= n <= sent.len(),
    ensures
        top::filled(ready, sent, now, n)[a] == ready[a] + sent.take(n).filter(
            due_for(now.nanos as int, a),
        ).map_values(opened()),
    decreases n,
{
    reveal(Seq::filter);
    let due = due_for(now.nanos as int, a);
    let here = sent.take(n).filter(due);
    if n > 0 {
        lemma_filled(ready, sent, now, n - 1, a);
        assert(sent.take(n).drop_last() =~= sent.take(n - 1));
        let before = sent.take(n - 1).filter(due);
        let m = sent[n - 1];
        if due(m) {
            assert(here == before.push(m));
            assert(here.map_values(opened()) =~= before.map_values(opened()).push(opened()(m)));
            assert(ready[a] + here.map_values(opened()) =~= (ready[a] + before.map_values(
                opened(),
            )).push(opened()(m)));
        }
    } else {
        assert(here =~= Seq::empty());
        assert(ready[a] + here.map_values(opened()) =~= ready[a]);
    }
}

/// What a link that has been looked at carries and has ready.
proof fn lemma_processed(l: LinkView, a: IpAddr)
    ensures
        l.processed().sent == l.sent.filter(early(l.now.nanos as int)),
        l.processed().ready[a] == l.ready[a] + l.sent.filter(
            due_for(l.now.nanos as int, a),
        ).map_values(opened()),
{
    let n = l.sent.len() as int;
    assert(l.sent.take(n) =~= l.sent);
    lemma_kept(l.sent, l.now, n);
    lemma_filled(l.ready, l.sent, l.now, n, a);
}

/// When the time moves on, what a link has ready for a host is what it had, and behind that all
/// messages to the host that are due by now, in the order in which they were sent. The others
/// stay on the link in their order, and nothing else about the link changes.
pub proof fn law_due_messages_arrive_in_order(
    t: TopologyView,
    duration: Duration,
    p: Pair,
    a: IpAddr,
)
    requires
        t.links.contains_key(p),
        t.now.nanos + duration.nanos <= u128::MAX,
    ensures
        ({
            let now = t.now.nanos + duration.nanos;
            let l = t.links[p];
            let after = t.ticked(duration);
            let m = after.links[p];
            &&& after.now.nanos == now
            &&& after.latency == t.latency
            &&& after.order == t.order
            &&& after.links.dom() == t.links.dom()
            &&& m.ready[a] == l.ready[a] + l.sent.filter(
                |m: SentView|
                    m.dst.ip == a && m.status is DeliverAfter && m.status->DeliverAfter_0.nanos
                        <= now,
            ).map_values(
                |m: SentView| EnvelopeView { src: m.src, dst: m.dst, packet: m.packet },
            )
            &&& m.sent == l.sent.filter(
                |m: SentView|
                    !(m.status is DeliverAfter && m.status->DeliverAfter_0.nanos <= now),
            )
            &&& m.now.nanos == now
            &&& (m.pair, m.state_a_b, m.state_b_a, m.latency) == (
                l.pair,
                l.state_a_b,
                l.state_b_a,
                l.latency,
            )
        }),
{
    let now = Duration { nanos: (t.now.nanos + duration.nanos) as u128 };
    assert(t.ticked(duration).links.dom() =~= t.links.dom());
    lemma_processed(LinkView { now, ..t.links[p] }, a);
    assert(due_for(now.nanos as int, a) =~= |m: SentView|
        m.dst.ip == a && m.status is DeliverAfter && m.status->DeliverAfter_0.nanos <= now.nanos);
    assert(early(now.nanos as int) =~= |m: SentView|
        !(m.status is DeliverAfter && m.status->DeliverAfter_0.nanos <= now.nanos));
}

/// Of two messages to one host that are due, the one that was sent first comes first in what is
/// ready for the host, behind all that was ready before.
pub proof fn law_first_sent_arrives_first(
    t: TopologyView,
    duration: Duration,
    p: Pair,
    i: int,
    j: int,
)
    requires
        t.links.contains_key(p),
        t.now.nanos + duration.nanos <= u128::MAX,
        0 <= i < j < t.links[p].sent.len(),
        t.links[p].sent[i].dst.ip == t.links[p].sent[j].dst.ip,
        t.links[p].sent[i].status matches DeliveryStatus::DeliverAfter(at) && at.nanos
            <= t.now.nanos + duration.nanos,
        t.links[p].sent[j].status matches DeliveryStatus::DeliverAfter(at) && at.nanos
            <= t.now.nanos + duration.nanos,
    ensures
        ({
            let l = t.links[p];
            let ready = t.ticked(duration).links[p].ready[l.sent[i].dst.ip];
            exists|x: int, y: int|
                l.ready[l.sent[i].dst.ip].len() <= x < y < ready.len() && #[trigger] ready[x] == (
                EnvelopeView {
                    src: l.sent[i].src,
                    dst: l.sent[i].dst,
                    packet: l.sent[i].packet,
                }) && #[trigger] ready[y] == (EnvelopeView {
                    src: l.sent[j].src,
                    dst: l.sent[j].dst,
                    packet: l.sent[j].packet,
                })
        }),
{
    let l = t.links[p];
    let a = l.sent[i].dst.ip;
    let now = Duration { nanos: (t.now.nanos + duration.nanos) as u128 };
    let due = due_for(now.nanos as int, a);
    lemma_processed(LinkView { now, ..l }, a);
    let all = l.sent.filter(due);
    let ready = t.ticked(duration).links[p].ready[a];
    assert(ready == l.ready[a] + all.map_values(opened()));
    let x = lemma_place(l.sent, due, l.sent.len() as int, i, j);
    assert(l.sent.take(l.sent.len() as int) =~= l.sent);
    let base = l.ready[a].len() as int;
    assert(ready[base + x.0] == opened()(l.sent[i]));
    assert(ready[base + x.1] == opened()(l.sent[j]));
}

/// Where two items stand among those that are picked.
proof fn lemma_place(
    s: Seq<SentView>,
    pick: spec_fn(SentView) -> bool,
    n: int,
    i: int,
    j: int,
) -> (r: (int, int))
    requires
        0 <= i < j < n <= s.len(),
        pick(s[i]),
        pick(s[j]),
    ensures
        0 <= r.0 < r.1 < s.take(n).filter(pick).len(),
        s.take(n).filter(pick)[r.0] == s[i],
        s.take(n).filter(pick)[r.1] == s[j],
    decreases n,
{
    reveal(Seq::filter);
    assert(s.take(n).drop_last() =~= s.take(n - 1));
    let before = s.take(n - 1).filter(pick);
    if j == n - 1 {
        s.take(n - 1).lemma_filter_contains(pick, i);
        let x = choose|x: int| 0 <= x < before.len() && before[x] == s[i];
        (x, before.len() as int)
    } else {
        lemma_place(s, pick, n - 1, i, j)
    }
}

/// A message that is sent changes only the link of the two hosts.
pub proof fn law_message_uses_its_link(
    t: TopologyView,
    fate: Fate,
    src: SocketAddr,
    dst: SocketAddr,
    packet: Packet,
    p: Pair,
)
    requires
        t.linked(src.ip, dst.ip),
    ensures
        ({
            let after = t.enqueued(fate, src, dst, packet);
            &&& (after.latency, after.order, after.now) == (t.latency, t.order, t.now)
            &&& after.links.dom() == t.links.dom()
            &&& p != Pair(src.ip, dst.ip) && p != Pair(dst.ip, src.ip) && t.links.contains_key(p)
                ==> after.links[p] == t.links[p]
            &&& {
                let q = top::pair(src.ip, dst.ip);
                &&& q == Pair(src.ip, dst.ip) || q == Pair(dst.ip, src.ip)
                &&& (after.links[q].pair, after.links[q].latency, after.links[q].now) == (
                    t.links[q].pair,
                    t.links[q].latency,
                    t.links[q].now,
                )
            }
        }),
{
    assert(t.enqueued(fate, src, dst, packet).links.dom() =~= t.links.dom());
}

/// Where a direction of the link is healthy and chance makes the link fail, it is broken in both
/// directions, and the message goes nowhere: on the link and ready is what would be without it.
pub proof fn law_chance_breaks_both_directions(
    t: TopologyView,
    fate: Fate,
    src: SocketAddr,
    dst: SocketAddr,
    packet: Packet,
    a: IpAddr,
)
    requires
        t.linked(src.ip, dst.ip),
        fate.fail,
        t.links[top::pair(src.ip, dst.ip)].state_a_b is Healthy || t.links[top::pair(
            src.ip,
            dst.ip,
        )].state_b_a is Healthy,
    ensures
        ({
            let p = top::pair(src.ip, dst.ip);
            let l = t.links[p];
            let m = t.enqueued(fate, src, dst, packet).links[p];
            &&& m.state_a_b is RandPartition && m.state_b_a is RandPartition
            &&& m.state(src.ip, dst.ip) is RandPartition
            &&& m.state(dst.ip, src.ip) is RandPartition
            &&& m.sent == l.sent.filter(
                |m: SentView|
                    !(m.status is DeliverAfter && m.status->DeliverAfter_0.nanos <= l.now.nanos),
            )
            &&& m.ready[a] == l.ready[a] + l.sent.filter(
                |m: SentView|
                    m.dst.ip == a && m.status is DeliverAfter && m.status->DeliverAfter_0.nanos
                        <= l.now.nanos,
            ).map_values(
                |m: SentView| EnvelopeView { src: m.src, dst: m.dst, packet: m.packet },
            )
        }),
{
    let p = top::pair(src.ip, dst.ip);
    let l = t.links[p];
    lemma_predicates(l.now.nanos as int, a);
    lemma_processed(
        LinkView { state_a_b: State::RandPartition, state_b_a: State::RandPartition, ..l },
        a,
    );
}

proof fn lemma_predicates(now: int, a: IpAddr)
    ensures
        due_for(now, a) == (|m: SentView|
            m.dst.ip == a && m.status is DeliverAfter && m.status->DeliverAfter_0.nanos <= now),
        early(now) == (|m: SentView|
            !(m.status is DeliverAfter && m.status->DeliverAfter_0.nanos <= now)),
{
    assert(due_for(now, a) =~= |m: SentView|
        m.dst.ip == a && m.status is DeliverAfter && m.status->DeliverAfter_0.nanos <= now);
    assert(early(now) =~= |m: SentView|
        !(m.status is DeliverAfter && m.status->DeliverAfter_0.nanos <= now));
}

/// Where no direction of the link is healthy, one is broken by chance and chance repairs the
/// link, it is healthy in both directions. What was held is ready, and so is what was due; the
/// message is behind all that stays on the link, or ready at once where it takes no time.
pub proof fn law_chance_repairs_both_directions(
    t: TopologyView,
    fate: Fate,
    src: SocketAddr,
    dst: SocketAddr,
    packet: Packet,
    a: IpAddr,
)
    requires
        t.linked(src.ip, dst.ip),
        fate.repair,
        !(t.links[top::pair(src.ip, dst.ip)].state_a_b is Healthy),
        !(t.links[top::pair(src.ip, dst.ip)].state_b_a is Healthy),
        t.links[top::pair(src.ip, dst.ip)].state_a_b is RandPartition || t.links[top::pair(
            src.ip,
            dst.ip,
        )].state_b_a is RandPartition,
        times_add_up(t.links[top::pair(src.ip, dst.ip)], t.latency),
    ensures
        ({
            let p = top::pair(src.ip, dst.ip);
            let l = t.links[p];
            let m = t.enqueued(fate, src, dst, packet).links[p];
            let limits = match l.latency {
                Some(own) => own,
                None => t.latency,
            };
            let (min, max) = (limits.min_message_latency.nanos, limits.max_message_latency.nanos);
            let arrives = l.now.nanos + if min + fate.extra.nanos <= max {
                min + fate.extra.nanos
            } else {
                max as int
            };
            let own = SentView {
                src,
                dst,
                status: DeliveryStatus::DeliverAfter(Duration { nanos: arrives as u128 }),
                packet,
            };
            &&& m.state_a_b is Healthy && m.state_b_a is Healthy
            &&& m.state(src.ip, dst.ip) is Healthy && m.state(dst.ip, src.ip) is Healthy
            &&& m.sent == l.sent.push(own).filter(
                |m: SentView|
                    m.status is DeliverAfter && m.status->DeliverAfter_0.nanos > l.now.nanos,
            )
            &&& m.ready[a] == l.ready[a] + l.sent.push(own).filter(
                |m: SentView|
                    m.dst.ip == a && !(m.status is DeliverAfter && m.status->DeliverAfter_0.nanos
                        > l.now.nanos),
            ).map_values(
                |m: SentView| EnvelopeView { src: m.src, dst: m.dst, packet: m.packet },
            )
        }),
{
    let p = top::pair(src.ip, dst.ip);
    let l = t.links[p];
    let now = l.now.nanos as int;
    let q = l.shaken(fate).queued(t.latency, fate.extra, src, dst, packet);
    lemma_processed(q, a);
    let limits = l.latency_or(t.latency);
    let own = SentView {
        src,
        dst,
        status: DeliveryStatus::DeliverAfter(
            Duration { nanos: (l.now.nanos + limits.delay(fate.extra)) as u128 },
        ),
        packet,
    };
    let all = l.sent.push(own);
    assert(q.sent.len() == all.len());
    let late = |m: SentView|
        m.status is DeliverAfter && m.status->DeliverAfter_0.nanos > l.now.nanos;
    let soon = |m: SentView|
        m.dst.ip == a && !(m.status is DeliverAfter && m.status->DeliverAfter_0.nanos
            > l.now.nanos);
    assert forall|i: int| 0 <= i < all.len() implies {
        &&& opened()(all[i]) == opened()(#[trigger] q.sent[i])
        &&& late(all[i]) == early(now)(q.sent[i])
        &&& late(all[i]) ==> all[i] == q.sent[i]
        &&& soon(all[i]) == due_for(now, a)(q.sent[i])
    } by {}
    lemma_alike(all, q.sent, late, early(now), soon, due_for(now, a), all.len() as int);
    assert(all.take(all.len() as int) =~= all);
    assert(q.sent.take(all.len() as int) =~= q.sent);
}

/// Picking alike from lists of messages that are alike.
proof fn lemma_alike(
    s: Seq<SentView>,
    u: Seq<SentView>,
    f: spec_fn(SentView) -> bool,
    g: spec_fn(SentView) -> bool,
    h: spec_fn(SentView) -> bool,
    k: spec_fn(SentView) -> bool,
    n: int,
)
    requires
        s.len() == u.len(),
        0 <= n <= s.len(),
        forall|i: int|
            0 <= i < s.len() ==> {
                &&& opened()(s[i]) == opened()(#[trigger] u[i])
                &&& f(s[i]) == g(u[i])
                &&& f(s[i]) ==> s[i] == u[i]
                &&& h(s[i]) == k(u[i])
            },
    ensures
        s.take(n).filter(f) == u.take(n).filter(g),
        s.take(n).filter(h).map_values(opened()) == u.take(n).filter(k).map_values(opened()),
    decreases n,
{
    reveal(Seq::filter);
    if n > 0 {
        lemma_alike(s, u, f, g, h, k, n - 1);
        assert(s.take(n).drop_last() =~= s.take(n - 1));
        assert(u.take(n).drop_last() =~= u.take(n - 1));
        assert(opened()(s[n - 1]) == opened()(u[n - 1]));
        let x = s.take(n - 1).filter(h);
        let y = u.take(n - 1).filter(k);
        assert(x.push(s[n - 1]).map_values(opened()) =~= x.map_values(opened()).push(
            opened()(s[n - 1]),
        ));
        assert(y.push(u[n - 1]).map_values(opened()) =~= y.map_values(opened()).push(
            opened()(u[n - 1]),
        ));
    } else {
        assert(s.take(0).filter(f) =~= u.take(0).filter(g));
        assert(s.take(0).filter(h).map_values(opened()) =~= u.take(0).filter(k).map_values(
            opened(),
        ));
    }
}

/// Where chance leaves the link alone its directions stay as they are. A message is then put
/// behind the others with the time at which it arrives, or to be held, or goes nowhere, as the
/// direction that it takes is healthy, on hold or broken. It arrives after the shortest time and
/// what chance adds to it, and never after the longest time.
pub proof fn law_message_goes_the_way_of_its_direction(
    t: TopologyView,
    fate: Fate,
    src: SocketAddr,
    dst: SocketAddr,
    packet: Packet,
    a: IpAddr,
)
    requires
        t.linked(src.ip, dst.ip),
        times_add_up(t.links[top::pair(src.ip, dst.ip)], t.latency),
        fate.fail ==> !(t.links[top::pair(src.ip, dst.ip)].state_a_b is Healthy) && !(
        t.links[top::pair(src.ip, dst.ip)].state_b_a is Healthy),
        fate.repair ==> t.links[top::pair(src.ip, dst.ip)].state_a_b is Healthy || t.links[top::pair(
            src.ip,
            dst.ip,
        )].state_b_a is Healthy || !(t.links[top::pair(src.ip, dst.ip)].state_a_b is RandPartition
            || t.links[top::pair(src.ip, dst.ip)].state_b_a is RandPartition),
    ensures
        ({
            let p = top::pair(src.ip, dst.ip);
            let l = t.links[p];
            let m = t.enqueued(fate, src, dst, packet).links[p];
            let direction = if p.0 == src.ip {
                l.state_a_b
            } else {
                l.state_b_a
            };
            let limits = match l.latency {
                Some(own) => own,
                None => t.latency,
            };
            let (min, max) = (limits.min_message_latency.nanos, limits.max_message_latency.nanos);
            let arrives = l.now.nanos + if min + fate.extra.nanos <= max {
                min + fate.extra.nanos
            } else {
                max as int
            };
            let timed = DeliveryStatus::DeliverAfter(Duration { nanos: arrives as u128 });
            let all = match direction {
                State::Healthy => l.sent.push(SentView { src, dst, status: timed, packet }),
                State::Hold => l.sent.push(
                    SentView { src, dst, status: DeliveryStatus::Hold, packet },
                ),
                _ => l.sent,
            };
            &&& m.state_a_b == l.state_a_b && m.state_b_a == l.state_b_a
            &&& m.sent == all.filter(
                |m: SentView|
                    !(m.status is DeliverAfter && m.status->DeliverAfter_0.nanos <= l.now.nanos),
            )
            &&& m.ready[a] == l.ready[a] + all.filter(
                |m: SentView|
                    m.dst.ip == a && m.status is DeliverAfter && m.status->DeliverAfter_0.nanos
                        <= l.now.nanos,
            ).map_values(
                |m: SentView| EnvelopeView { src: m.src, dst: m.dst, packet: m.packet },
            )
        }),
{
    let p = top::pair(src.ip, dst.ip);
    let l = t.links[p];
    addr::law_addresses_are_ordered(src.ip, dst.ip);
    lemma_predicates(l.now.nanos as int, a);
    lemma_processed(l.queued(t.latency, fate.extra, src, dst, packet), a);
}

/// The link of two hosts, after what is done from the first to the second where `there` says so,
/// and from the second to the first where `back` says so.
spec fn done(
    l: LinkView,
    global: Latency,
    action: LinkAction,
    x: IpAddr,
    y: IpAddr,
    there: bool,
    back: bool,
) -> LinkView {
    let first = if there {
        l.acted(global, action, x, y)
    } else {
        l
    };
    if back {
        first.acted(global, action, y, x)
    } else {
        first
    }
}

/// Doing the same once more changes nothing, and the two ways do not disturb each other.
proof fn lemma_done(
    l: LinkView,
    global: Latency,
    action: LinkAction,
    x: IpAddr,
    y: IpAddr,
    there: bool,
    back: bool,
)
    requires
        x != y,
    ensures
        done(l, global, action, x, y, there, back).acted(global, action, x, y) == done(
            l,
            global,
            action,
            x,
            y,
            true,
            back,
        ),
        done(l, global, action, x, y, there, back).acted(global, action, y, x) == done(
            l,
            global,
            action,
            x,
            y,
            there,
            true,
        ),
{
    addr::law_addresses_are_ordered(x, y);
    let d = done(l, global, action, x, y, there, back);
    assert(d.acted(global, action, x, y) =~= done(l, global, action, x, y, true, back));
    assert(d.acted(global, action, y, x) =~= done(l, global, action, x, y, there, true));
}

/// Whether the first host is one of the first `m` of some, or else the one after these, and the
/// second one of the others, in the last case of the first `n`.
spec fn is_named(a: Seq<IpAddr>, b: Seq<IpAddr>, m: int, n: int, x: IpAddr, y: IpAddr) -> bool {
    exists|i: int, j: int|
        #![trigger a[i], b[j]]
        0 <= i < a.len() && 0 <= j < b.len() && (i < m || (i == m && j < n)) && a[i] == x && b[j]
            == y
}

proof fn lemma_row(
    t: TopologyView,
    start: TopologyView,
    action: LinkAction,
    a: Seq<IpAddr>,
    b: Seq<IpAddr>,
    m: int,
    n: int,
    p: Pair,
)
    requires
        0 <= m < a.len(),
        0 <= n <= b.len(),
        p.0.is_before(p.1),
        start.links.contains_key(p),
        t.links.contains_key(p),
        t.latency == start.latency,
        t.links[p] == done(
            start.links[p],
            start.latency,
            action,
            p.0,
            p.1,
            is_named(a, b, m, 0, p.0, p.1),
            is_named(a, b, m, 0, p.1, p.0),
        ),
    ensures
        ({
            let after = world::acted_row(t, action, a[m], b, n);
            &&& after.links.contains_key(p)
            &&& (after.latency, after.order, after.now) == (t.latency, t.order, t.now)
            &&& after.links[p] == done(
                start.links[p],
                start.latency,
                action,
                p.0,
                p.1,
                is_named(a, b, m, n, p.0, p.1),
                is_named(a, b, m, n, p.1, p.0),
            )
        }),
    decreases n,
{
    if n > 0 {
        lemma_row(t, start, action, a, b, m, n - 1, p);
        let (x, y) = (a[m], b[n - 1]);
        addr::law_addresses_are_ordered(p.0, p.1);
        addr::law_addresses_are_ordered(x, y);
        let before = is_named(a, b, m, n - 1, p.0, p.1);
        let behind = is_named(a, b, m, n - 1, p.1, p.0);
        lemma_named(a, b, m, n, p.0, p.1);
        lemma_named(a, b, m, n, p.1, p.0);
        lemma_done(start.links[p], start.latency, action, p.0, p.1, before, behind);
    }
}

proof fn lemma_named(a: Seq<IpAddr>, b: Seq<IpAddr>, m: int, n: int, x: IpAddr, y: IpAddr)
    requires
        0 <= m < a.len(),
        0 < n <= b.len(),
    ensures
        is_named(a, b, m, n, x, y) == (is_named(a, b, m, n - 1, x, y) || (a[m] == x && b[n - 1]
            == y)),
{
    if is_named(a, b, m, n, x, y) {
        let (i, j) = choose|i: int, j: int|
            #![trigger a[i], b[j]]
            0 <= i < a.len() && 0 <= j < b.len() && (i < m || (i == m && j < n)) && a[i] == x
                && b[j] == y;
        if i < m || j < n - 1 {
            assert(a[i] == x && b[j] == y);
        }
    }
    if is_named(a, b, m, n - 1, x, y) {
        let (i, j) = choose|i: int, j: int|
            #![trigger a[i], b[j]]
            0 <= i < a.len() && 0 <= j < b.len() && (i < m || (i == m && j < n - 1)) && a[i] == x
                && b[j] == y;
        assert(a[i] == x && b[j] == y);
    }
}

proof fn lemma_all(
    start: TopologyView,
    action: LinkAction,
    a: Seq<IpAddr>,
    b: Seq<IpAddr>,
    m: int,
    p: Pair,
)
    requires
        0 <= m <= a.len(),
        p.0.is_before(p.1),
        start.links.contains_key(p),
    ensures
        ({
            let after = world::acted_all(start, action, a, b, m);
            &&& after.links.contains_key(p)
            &&& (after.latency, after.order, after.now) == (
                start.latency,
                start.order,
                start.now,
            )
            &&& after.links[p] == done(
                start.links[p],
                start.latency,
                action,
                p.0,
                p.1,
                is_named(a, b, m, 0, p.0, p.1),
                is_named(a, b, m, 0, p.1, p.0),
            )
        }),
    decreases m,
{
    if m > 0 {
        lemma_all(start, action, a, b, m - 1, p);
        let t = world::acted_all(start, action, a, b, m - 1);
        lemma_row(t, start, action, a, b, m - 1, b.len() as int, p);
        lemma_next_row(a, b, m, p.0, p.1);
        lemma_next_row(a, b, m, p.1, p.0);
    }
}

proof fn lemma_next_row(a: Seq<IpAddr>, b: Seq<IpAddr>, m: int, x: IpAddr, y: IpAddr)
    requires
        0 < m <= a.len(),
    ensures
        is_named(a, b, m - 1, b.len() as int, x, y) == is_named(a, b, m, 0, x, y),
{
    if is_named(a, b, m, 0, x, y) {
        let (i, j) = choose|i: int, j: int|
            #![trigger a[i], b[j]]
            0 <= i < a.len() && 0 <= j < b.len() && (i < m || (i == m && j < 0)) && a[i] == x
                && b[j] == y;
        assert(a[i] == x && b[j] == y);
    }
    if is_named(a, b, m - 1, b.len() as int, x, y) {
        let (i, j) = choose|i: int, j: int|
            #![trigger a[i], b[j]]
            0 <= i < a.len() && 0 <= j < b.len() && (i < m - 1 || (i == m - 1 && j < b.len()))
                && a[i] == x && b[j] == y;
        assert(a[i] == x && b[j] == y);
    }
}

/// What is done to the links between some hosts and others is done to the link of each of the
/// one with each of the others. A link holds, drops or passes messages in both directions
/// afterwards, or in the direction that is named; a release has what was held delivered at once;
/// and a link takes on the times that are set. What the links have ready stays.
pub proof fn law_action_reaches_every_pair(
    w: WorldView,
    action: LinkAction,
    a: Seq<IpAddr>,
    b: Seq<IpAddr>,
    i: int,
    j: int,
)
    requires
        0 <= i < a.len(),
        0 <= j < b.len(),
        a[i] != b[j],
        w.topology.links.contains_key(top::pair(a[i], b[j])),
    ensures
        ({
            let p = top::pair(a[i], b[j]);
            let l = w.topology.links[p];
            let after = w.acted_on(action, a, b).topology;
            let m = after.links[p];
            let direction = if p.0 == a[i] {
                m.state_a_b
            } else {
                m.state_b_a
            };
            &&& after.links.contains_key(p)
            &&& p == Pair(a[i], b[j]) || p == Pair(b[j], a[i])
            &&& (m.pair, m.ready, m.now) == (l.pair, l.ready, l.now)
            &&& m.sent.len() == l.sent.len()
            &&& forall|k: int|
                0 <= k < l.sent.len() ==> {
                    let (x, y) = (l.sent[k], #[trigger] m.sent[k]);
                    &&& (x.src, x.dst, x.packet) == (y.src, y.dst, y.packet)
                    &&& y.status == (if action is Release && x.status is Hold {
                        DeliveryStatus::DeliverAfter(l.now)
                    } else {
                        x.status
                    })
                }
            &&& match action {
                LinkAction::Hold => m.state_a_b is Hold && m.state_b_a is Hold,
                LinkAction::Release => m.state_a_b is Healthy && m.state_b_a is Healthy,
                LinkAction::Partition => m.state_a_b is ExplicitPartition
                    && m.state_b_a is ExplicitPartition,
                LinkAction::Repair => m.state_a_b is Healthy && m.state_b_a is Healthy,
                LinkAction::PartitionOneway => direction is ExplicitPartition,
                LinkAction::RepairOneway => direction is Healthy,
                _ => m.state_a_b == l.state_a_b && m.state_b_a == l.state_b_a,
            }
            &&& match action {
                LinkAction::SetLatency(value) => m.latency matches Some(t)
                    && t.min_message_latency == value && t.max_message_latency == value,
                LinkAction::SetMaxLatency(value) => m.latency matches Some(t)
                    && t.max_message_latency == value && t.min_message_latency == (match l.latency {
                    Some(own) => own.min_message_latency,
                    None => w.topology.latency.min_message_latency,
                }),
                _ => m.latency == l.latency,
            }
        }),
{
    let p = top::pair(a[i], b[j]);
    addr::law_addresses_are_ordered(a[i], b[j]);
    lemma_all(w.topology, action, a, b, a.len() as int, p);
    assert(is_named(a, b, a.len() as int, 0, a[i], b[j]));
}

/// What is done to the links between some hosts and others leaves every other link as it is, and
/// where it is done to one direction alone it leaves the opposite one, unless that is named too.
/// Nothing else in the world changes.
pub proof fn law_action_reaches_no_other_pair(
    w: WorldView,
    action: LinkAction,
    a: Seq<IpAddr>,
    b: Seq<IpAddr>,
    p: Pair,
)
    requires
        w.topology.links.contains_key(p),
        p.0.is_before(p.1),
    ensures
        ({
            let l = w.topology.links[p];
            let after = w.acted_on(action, a, b);
            let m = after.topology.links[p];
            &&& (after.order, after.hosts, after.dns, after.groups, after.current) == (
                w.order,
                w.hosts,
                w.dns,
                w.groups,
                w.current,
            )
            &&& (after.topology.order, after.topology.latency, after.topology.now) == (
                w.topology.order,
                w.topology.latency,
                w.topology.now,
            )
            &&& after.topology.links.contains_key(p)
            &&& !(a.contains(p.0) && b.contains(p.1)) && !(a.contains(p.1) && b.contains(p.0))
                ==> m == l
            &&& action is PartitionOneway || action is RepairOneway ==> {
                &&& !(a.contains(p.0) && b.contains(p.1)) ==> m.state_a_b == l.state_a_b
                &&& !(a.contains(p.1) && b.contains(p.0)) ==> m.state_b_a == l.state_b_a
            }
        }),
{
    addr::law_addresses_are_ordered(p.0, p.1);
    lemma_all(w.topology, action, a, b, a.len() as int, p);
    let n = a.len() as int;
    if is_named(a, b, n, 0, p.0, p.1) {
        let (i, j) = choose|i: int, j: int|
            #![trigger a[i], b[j]]
            0 <= i < a.len() && 0 <= j < b.len() && (i < n || (i == n && j < 0)) && a[i] == p.0
                && b[j] == p.1;
        assert(a.contains(p.0) && b.contains(p.1));
    }
    if is_named(a, b, n, 0, p.1, p.0) {
        let (i, j) = choose|i: int, j: int|
            #![trigger a[i], b[j]]
            0 <= i < a.len() && 0 <= j < b.len() && (i < n || (i == n && j < 0)) && a[i] == p.1
                && b[j] == p.0;
        assert(a.contains(p.1) && b.contains(p.0));
    }
}

/// A host takes in what its links have ready for it: the links in the order in which they came,
/// and what is ready on each in its order. The links then have nothing ready for it, and what
/// they have for other hosts and carry stays.
pub proof fn law_host_takes_in_everything_in_order(t: TopologyView, h: HostView, p: Pair, a: IpAddr)
    requires
        t.links.contains_key(p),
        t.links[p].pair == p,
    ensures
        t.delivered(h, t.order.len() as int) == t.order.filter(
            |p: Pair| p.0 == h.addr || p.1 == h.addr,
        ).map_values(|p: Pair| t.links[p].ready[h.addr]).flatten_alt().fold_left(
            h,
            |h: HostView, m: EnvelopeView| h.offered(m.src, m.dst, m.packet),
        ),
        ({
            let after = t.drained(h.addr);
            let (l, m) = (t.links[p], after.links[p]);
            &&& (after.order, after.latency, after.now) == (t.order, t.latency, t.now)
            &&& after.links.dom() == t.links.dom()
            &&& p.0 == h.addr || p.1 == h.addr ==> m.ready[h.addr] == Seq::<EnvelopeView>::empty()
            &&& a != h.addr ==> m.ready[a] == l.ready[a]
            &&& (m.sent, m.state_a_b, m.state_b_a, m.latency, m.now, m.pair) == (
                l.sent,
                l.state_a_b,
                l.state_b_a,
                l.latency,
                l.now,
                l.pair,
            )
        }),
{
    assert(t.drained(h.addr).links.dom() =~= t.links.dom());
    lemma_delivered(t, h, t.order.len() as int);
    assert(t.order.take(t.order.len() as int) =~= t.order);
}

proof fn lemma_received(h: HostView, messages: Seq<EnvelopeView>, n: int)
    requires
        0 <= n <= messages.len(),
    ensures
        top::received_all(h, messages, n) == messages.take(n).fold_left(
            h,
            |h: HostView, m: EnvelopeView| h.offered(m.src, m.dst, m.packet),
        ),
        top::received_all(h, messages, n).addr == h.addr,
    decreases n,
{
    if n > 0 {
        lemma_received(h, messages, n - 1);
        assert(messages.take(n).drop_last() =~= messages.take(n - 1));
    }
}

proof fn lemma_delivered(t: TopologyView, h: HostView, n: int)
    requires
        0 <= n <= t.order.len(),
    ensures
        t.delivered(h, n) == t.order.take(n).filter(
            |p: Pair| p.0 == h.addr || p.1 == h.addr,
        ).map_values(|p: Pair| t.links[p].ready[h.addr]).flatten_alt().fold_left(
            h,
            |h: HostView, m: EnvelopeView| h.offered(m.src, m.dst, m.packet),
        ),
        t.delivered(h, n).addr == h.addr,
    decreases n,
{
    reveal(Seq::filter);
    let near = |p: Pair| p.0 == h.addr || p.1 == h.addr;
    let ready = |p: Pair| t.links[p].ready[h.addr];
    let take = |h: HostView, m: EnvelopeView| h.offered(m.src, m.dst, m.packet);
    let here = t.order.take(n).filter(near);
    if n > 0 {
        lemma_delivered(t, h, n - 1);
        assert(t.order.take(n).drop_last() =~= t.order.take(n - 1));
        let before = t.order.take(n - 1).filter(near);
        let p = t.order[n - 1];
        if near(p) {
            let mapped = here.map_values(ready);
            assert(here == before.push(p));
            assert(mapped.drop_last() =~= before.map_values(ready));
            assert(mapped.last() == ready(p));
            let first = before.map_values(ready).flatten_alt();
            let all = mapped.flatten_alt();
            assert(all == first + ready(p));
            all.lemma_fold_left_split(h, take, first.len() as int);
            assert(all.subrange(0, first.len() as int) =~= first);
            assert(all.subrange(first.len() as int, all.len() as int) =~= ready(p));
            lemma_received(t.delivered(h, n - 1), ready(p), ready(p).len() as int);
            assert(ready(p).take(ready(p).len() as int) =~= ready(p));
        }
    } else {
        assert(here =~= Seq::empty());
        assert(here.map_values(ready) =~= Seq::empty());
    }
}

/// Delivering a message on a link at once makes it due now; delivering all makes each of them
/// due now. What they are, their order, and what else the link has stay.
pub proof fn law_messages_that_are_delivered_at_once(l: LinkView, j: int)
    requires
        0 <= j < l.sent.len(),
    ensures
        ({
            let (one, all) = (l.delivered_at(j), l.flushed());
            &&& one.sent.len() == l.sent.len() && all.sent.len() == l.sent.len()
            &&& one.sent[j].status == DeliveryStatus::DeliverAfter(l.now)
            &&& forall|k: int|
                0 <= k < l.sent.len() && k != j ==> #[trigger] one.sent[k] == l.sent[k]
            &&& forall|k: int|
                0 <= k < l.sent.len() ==> (#[trigger] all.sent[k]).status
                    == DeliveryStatus::DeliverAfter(l.now)
            &&& forall|k: int|
                0 <= k < l.sent.len() ==> {
                    let m = l.sent[k];
                    &&& (#[trigger] one.sent[k].src, one.sent[k].dst, one.sent[k].packet) == (
                        m.src,
                        m.dst,
                        m.packet,
                    )
                    &&& (#[trigger] all.sent[k].src, all.sent[k].dst, all.sent[k].packet) == (
                        m.src,
                        m.dst,
                        m.packet,
                    )
                }
            &&& (one.pair, one.state_a_b, one.state_b_a, one.latency, one.ready, one.now) == (
                l.pair,
                l.state_a_b,
                l.state_b_a,
                l.latency,
                l.ready,
                l.now,
            )
            &&& (all.pair, all.state_a_b, all.state_b_a, all.latency, all.ready, all.now) == (
                l.pair,
                l.state_a_b,
                l.state_b_a,
                l.latency,
                l.ready,
                l.now,
            )
        }),
{
}

/// A change to the link at a place in the order of the links is one to that link alone.
pub proof fn law_one_link_changes(t: TopologyView, i: int, l: LinkView, p: Pair)
    requires
        0 <= i < t.order.len(),
    ensures
        ({
            let after = t.with_link(i, l);
            &&& after.links[t.order[i]] == l
            &&& p != t.order[i] ==> after.links.contains_key(p) == t.links.contains_key(p)
            &&& p != t.order[i] && t.links.contains_key(p) ==> after.links[p] == t.links[p]
            &&& (after.order, after.latency, after.now) == (t.order, t.latency, t.now)
        }),
{
}

/// A message travels for the shortest time and so much longer, but not longer than the longest.
/// The times of its link count where it has some.
pub proof fn law_how_long_a_message_travels(l: LinkView, global: Latency, extra: Duration)
    ensures
        ({
            let t = match l.latency {
                Some(own) => own,
                None => global,
            };
            let sum = t.min_message_latency.nanos + extra.nanos;
            let d = l.latency_or(global).delay(extra);
            &&& sum <= t.max_message_latency.nanos ==> d == sum
            &&& sum > t.max_message_latency.nanos ==> d == t.max_message_latency.nanos
        }),
{
}

} // verus!
