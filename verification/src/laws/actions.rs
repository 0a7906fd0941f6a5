//! Laws of calls that act on the links between some hosts and others.
use crate::addr::IpAddr;
use crate::dns::{DnsView, ToIpAddrs};
use crate::laws::links;
use crate::sim::Sim;
use crate::time::Duration;
use crate::top;
use crate::top::{DeliveryStatus, LinkAction, LinkView, Pair};
use crate::world::{World, WorldView};
use vstd::prelude::*;

verus! {

/// Whether the one host is among those that the first stands for, the other among those that the
/// second does, and the two have a link.
pub open spec fn are_named<A: ToIpAddrs, B: ToIpAddrs>(
    w: WorldView,
    a: &A,
    b: &B,
    i: int,
    j: int,
    x: IpAddr,
    y: IpAddr,
) -> bool {
    &&& 0 <= i < a.resolved_all(w.dns).len() && a.resolved_all(w.dns)[i] == x
    &&& 0 <= j < b.resolved_all(w.dns).len() && b.resolved_all(w.dns)[j] == y
    &&& x != y && w.topology.links.contains_key(top::pair(x, y))
}

/// Whether the link has the same messages, and the same ready ones, as before.
pub open spec fn keeps_messages(l: LinkView, m: LinkView) -> bool {
    &&& m.pair == l.pair && m.ready == l.ready && m.now == l.now
    &&& m.sent.len() == l.sent.len()
    &&& forall|k: int|
        0 <= k < l.sent.len() ==> (#[trigger] m.sent[k].src, m.sent[k].dst, m.sent[k].packet) == (
            l.sent[k].src,
            l.sent[k].dst,
            l.sent[k].packet,
        )
}

/// Whether the link keeps messages in both directions.
pub open spec fn is_held(p: Pair, x: IpAddr, l: LinkView, m: LinkView) -> bool {
    m.state_a_b is Hold && m.state_b_a is Hold
}

/// Holding the links between some hosts and others has the link of each of the one with each of
/// the others keep messages in both directions. What is on the link stays.
pub proof fn law_calls_of_hold<A: ToIpAddrs, B: ToIpAddrs>(
    sim: &mut Sim,
    w: &mut World,
    a: &A,
    b: &B,
    i: int,
    j: int,
    x: IpAddr,
    y: IpAddr,
)
    requires
        call_ensures(Sim::hold::<A, B>, (sim, a, b), ()),
        call_ensures(World::hold_many::<A, B>, (w, a, b), ()),
        are_named(old(sim)@.world, a, b, i, j, x, y),
        are_named(old(w)@, a, b, i, j, x, y),
    ensures
        ({
            let p = top::pair(x, y);
            let (l, m) = (old(sim)@.world.topology.links[p], final(sim)@.world.topology.links[p]);
            &&& is_held(p, x, l, m) && keeps_messages(l, m) && m.latency == l.latency
            &&& final(sim)@.rts == old(sim)@.rts && final(sim)@.world.hosts
                == old(sim)@.world.hosts
        }),
        ({
            let p = top::pair(x, y);
            let (l, m) = (old(w)@.topology.links[p], final(w)@.topology.links[p]);
            &&& is_held(p, x, l, m) && keeps_messages(l, m) && m.latency == l.latency
            &&& final(w)@.hosts == old(w)@.hosts
        }),
{
    let (v, u) = (old(sim)@.world, old(w)@);
    links::law_action_reaches_every_pair(
        v,
        LinkAction::Hold,
        a.resolved_all(v.dns),
        b.resolved_all(v.dns),
        i,
        j,
    );
    links::law_action_reaches_every_pair(
        u,
        LinkAction::Hold,
        a.resolved_all(u.dns),
        b.resolved_all(u.dns),
        i,
        j,
    );
}

/// Whether the link is healthy in both directions, and what was held on it is due now.
pub open spec fn is_released(p: Pair, x: IpAddr, l: LinkView, m: LinkView) -> bool {
    m.state_a_b is Healthy && m.state_b_a is Healthy && forall|k: int|
        0 <= k < l.sent.len() && l.sent[k].status is Hold ==> (#[trigger] m.sent[k]).status
            == DeliveryStatus::DeliverAfter(l.now)
}

/// Releasing the links between some hosts and others makes the link of each of the one with each
/// of the others healthy, and the messages that were held on it due now.
pub proof fn law_calls_of_release<A: ToIpAddrs, B: ToIpAddrs>(
    sim: &mut Sim,
    w: &mut World,
    a: &A,
    b: &B,
    i: int,
    j: int,
    x: IpAddr,
    y: IpAddr,
)
    requires
        call_ensures(Sim::release::<A, B>, (sim, a, b), ()),
        call_ensures(World::release_many::<A, B>, (w, a, b), ()),
        are_named(old(sim)@.world, a, b, i, j, x, y),
        are_named(old(w)@, a, b, i, j, x, y),
    ensures
        ({
            let p = top::pair(x, y);
            let (l, m) = (old(sim)@.world.topology.links[p], final(sim)@.world.topology.links[p]);
            &&& is_released(p, x, l, m) && keeps_messages(l, m) && m.latency == l.latency
            &&& final(sim)@.rts == old(sim)@.rts && final(sim)@.world.hosts
                == old(sim)@.world.hosts
        }),
        ({
            let p = top::pair(x, y);
            let (l, m) = (old(w)@.topology.links[p], final(w)@.topology.links[p]);
            &&& is_released(p, x, l, m) && keeps_messages(l, m) && m.latency == l.latency
            &&& final(w)@.hosts == old(w)@.hosts
        }),
{
    let (v, u) = (old(sim)@.world, old(w)@);
    links::law_action_reaches_every_pair(
        v,
        LinkAction::Release,
        a.resolved_all(v.dns),
        b.resolved_all(v.dns),
        i,
        j,
    );
    links::law_action_reaches_every_pair(
        u,
        LinkAction::Release,
        a.resolved_all(u.dns),
        b.resolved_all(u.dns),
        i,
        j,
    );
}

/// Whether the link drops messages in both directions.
pub open spec fn is_partitioned(p: Pair, x: IpAddr, l: LinkView, m: LinkView) -> bool {
    m.state_a_b is ExplicitPartition && m.state_b_a is ExplicitPartition
}

/// A partition between some hosts and others has the link of each of the one with each of the
/// others drop messages in both directions. What is on the link stays.
pub proof fn law_calls_of_partition<A: ToIpAddrs, B: ToIpAddrs>(
    sim: &mut Sim,
    w: &mut World,
    a: &A,
    b: &B,
    i: int,
    j: int,
    x: IpAddr,
    y: IpAddr,
)
    requires
        call_ensures(Sim::partition::<A, B>, (sim, a, b), ()),
        call_ensures(World::partition_many::<A, B>, (w, a, b), ()),
        are_named(old(sim)@.world, a, b, i, j, x, y),
        are_named(old(w)@, a, b, i, j, x, y),
    ensures
        ({
            let p = top::pair(x, y);
            let (l, m) = (old(sim)@.world.topology.links[p], final(sim)@.world.topology.links[p]);
            &&& is_partitioned(p, x, l, m) && keeps_messages(l, m) && m.latency == l.latency
            &&& final(sim)@.rts == old(sim)@.rts && final(sim)@.world.hosts
                == old(sim)@.world.hosts
        }),
        ({
            let p = top::pair(x, y);
            let (l, m) = (old(w)@.topology.links[p], final(w)@.topology.links[p]);
            &&& is_partitioned(p, x, l, m) && keeps_messages(l, m) && m.latency == l.latency
            &&& final(w)@.hosts == old(w)@.hosts
        }),
{
    let (v, u) = (old(sim)@.world, old(w)@);
    links::law_action_reaches_every_pair(
        v,
        LinkAction::Partition,
        a.resolved_all(v.dns),
        b.resolved_all(v.dns),
        i,
        j,
    );
    links::law_action_reaches_every_pair(
        u,
        LinkAction::Partition,
        a.resolved_all(u.dns),
        b.resolved_all(u.dns),
        i,
        j,
    );
}

/// Whether the link drops messages from the host to the other end.
pub open spec fn is_partitioned_oneway(p: Pair, x: IpAddr, l: LinkView, m: LinkView) -> bool {
    (if p.0 == x {
        m.state_a_b
    } else {
        m.state_b_a
    }) is ExplicitPartition
}

/// A partition from some hosts to others has the link of each of the one with each of the others
/// drop messages in that direction. What is on the link stays.
pub proof fn law_calls_of_partition_oneway<A: ToIpAddrs, B: ToIpAddrs>(
    sim: &mut Sim,
    w: &mut World,
    a: &A,
    b: &B,
    i: int,
    j: int,
    x: IpAddr,
    y: IpAddr,
)
    requires
        call_ensures(Sim::partition_oneway::<A, B>, (sim, a, b), ()),
        call_ensures(World::partition_oneway_many::<A, B>, (w, a, b), ()),
        are_named(old(sim)@.world, a, b, i, j, x, y),
        are_named(old(w)@, a, b, i, j, x, y),
    ensures
        ({
            let p = top::pair(x, y);
            let (l, m) = (old(sim)@.world.topology.links[p], final(sim)@.world.topology.links[p]);
            &&& is_partitioned_oneway(p, x, l, m) && keeps_messages(l, m) && m.latency == l.latency
            &&& final(sim)@.rts == old(sim)@.rts && final(sim)@.world.hosts
                == old(sim)@.world.hosts
        }),
        ({
            let p = top::pair(x, y);
            let (l, m) = (old(w)@.topology.links[p], final(w)@.topology.links[p]);
            &&& is_partitioned_oneway(p, x, l, m) && keeps_messages(l, m) && m.latency == l.latency
            &&& final(w)@.hosts == old(w)@.hosts
        }),
{
    let (v, u) = (old(sim)@.world, old(w)@);
    links::law_action_reaches_every_pair(
        v,
        LinkAction::PartitionOneway,
        a.resolved_all(v.dns),
        b.resolved_all(v.dns),
        i,
        j,
    );
    links::law_action_reaches_every_pair(
        u,
        LinkAction::PartitionOneway,
        a.resolved_all(u.dns),
        b.resolved_all(u.dns),
        i,
        j,
    );
}

/// Whether the link is healthy in both directions.
pub open spec fn is_repaired(p: Pair, x: IpAddr, l: LinkView, m: LinkView) -> bool {
    m.state_a_b is Healthy && m.state_b_a is Healthy
}

/// Repairing the links between some hosts and others makes the link of each of the one with each
/// of the others healthy in both directions. What is on the link stays.
pub proof fn law_calls_of_repair<A: ToIpAddrs, B: ToIpAddrs>(
    sim: &mut Sim,
    w: &mut World,
    a: &A,
    b: &B,
    i: int,
    j: int,
    x: IpAddr,
    y: IpAddr,
)
    requires
        call_ensures(Sim::repair::<A, B>, (sim, a, b), ()),
        call_ensures(World::repair_many::<A, B>, (w, a, b), ()),
        are_named(old(sim)@.world, a, b, i, j, x, y),
        are_named(old(w)@, a, b, i, j, x, y),
    ensures
        ({
            let p = top::pair(x, y);
            let (l, m) = (old(sim)@.world.topology.links[p], final(sim)@.world.topology.links[p]);
            &&& is_repaired(p, x, l, m) && keeps_messages(l, m) && m.latency == l.latency
            &&& final(sim)@.rts == old(sim)@.rts && final(sim)@.world.hosts
                == old(sim)@.world.hosts
        }),
        ({
            let p = top::pair(x, y);
            let (l, m) = (old(w)@.topology.links[p], final(w)@.topology.links[p]);
            &&& is_repaired(p, x, l, m) && keeps_messages(l, m) && m.latency == l.latency
            &&& final(w)@.hosts == old(w)@.hosts
        }),
{
    let (v, u) = (old(sim)@.world, old(w)@);
    links::law_action_reaches_every_pair(
        v,
        LinkAction::Repair,
        a.resolved_all(v.dns),
        b.resolved_all(v.dns),
        i,
        j,
    );
    links::law_action_reaches_every_pair(
        u,
        LinkAction::Repair,
        a.resolved_all(u.dns),
        b.resolved_all(u.dns),
        i,
        j,
    );
}

/// Whether the link is healthy from the host to the other end.
pub open spec fn is_repaired_oneway(p: Pair, x: IpAddr, l: LinkView, m: LinkView) -> bool {
    (if p.0 == x {
        m.state_a_b
    } else {
        m.state_b_a
    }) is Healthy
}

/// Repairing the links from some hosts to others makes the link of each of the one with each of
/// the others healthy in that direction. What is on the link stays.
pub proof fn law_calls_of_repair_oneway<A: ToIpAddrs, B: ToIpAddrs>(
    sim: &mut Sim,
    w: &mut World,
    a: &A,
    b: &B,
    i: int,
    j: int,
    x: IpAddr,
    y: IpAddr,
)
    requires
        call_ensures(Sim::repair_oneway::<A, B>, (sim, a, b), ()),
        call_ensures(World::repair_oneway_many::<A, B>, (w, a, b), ()),
        are_named(old(sim)@.world, a, b, i, j, x, y),
        are_named(old(w)@, a, b, i, j, x, y),
    ensures
        ({
            let p = top::pair(x, y);
            let (l, m) = (old(sim)@.world.topology.links[p], final(sim)@.world.topology.links[p]);
            &&& is_repaired_oneway(p, x, l, m) && keeps_messages(l, m) && m.latency == l.latency
            &&& final(sim)@.rts == old(sim)@.rts && final(sim)@.world.hosts
                == old(sim)@.world.hosts
        }),
        ({
            let p = top::pair(x, y);
            let (l, m) = (old(w)@.topology.links[p], final(w)@.topology.links[p]);
            &&& is_repaired_oneway(p, x, l, m) && keeps_messages(l, m) && m.latency == l.latency
            &&& final(w)@.hosts == old(w)@.hosts
        }),
{
    let (v, u) = (old(sim)@.world, old(w)@);
    links::law_action_reaches_every_pair(
        v,
        LinkAction::RepairOneway,
        a.resolved_all(v.dns),
        b.resolved_all(v.dns),
        i,
        j,
    );
    links::law_action_reaches_every_pair(
        u,
        LinkAction::RepairOneway,
        a.resolved_all(u.dns),
        b.resolved_all(u.dns),
        i,
        j,
    );
}

/// Setting the time of the links between some hosts and others has messages on the link of each
/// of the one with each of the others travel exactly so long. Its directions stay as they are.
pub proof fn law_call_of_set_link_latency<A: ToIpAddrs, B: ToIpAddrs>(
    sim: &mut Sim,
    a: &A,
    b: &B,
    value: Duration,
    i: int,
    j: int,
    x: IpAddr,
    y: IpAddr,
)
    requires
        call_ensures(Sim::set_link_latency::<A, B>, (sim, a, b, value), ()),
        are_named(old(sim)@.world, a, b, i, j, x, y),
    ensures
        ({
            let p = top::pair(x, y);
            let (l, m) = (old(sim)@.world.topology.links[p], final(sim)@.world.topology.links[p]);
            &&& keeps_messages(l, m)
            &&& m.state_a_b == l.state_a_b && m.state_b_a == l.state_b_a
            &&& m.latency matches Some(t) && t.min_message_latency == value && t.max_message_latency == value
        }),
{
    let v = old(sim)@.world;
    links::law_action_reaches_every_pair(
        v,
        LinkAction::SetLatency(value),
        a.resolved_all(v.dns),
        b.resolved_all(v.dns),
        i,
        j,
    );
}

/// Setting the longest time of the links between some hosts and others has messages on the link
/// of each of the one with each of the others travel at most so long. Its directions stay.
pub proof fn law_call_of_set_link_max_message_latency<A: ToIpAddrs, B: ToIpAddrs>(
    sim: &mut Sim,
    a: &A,
    b: &B,
    value: Duration,
    i: int,
    j: int,
    x: IpAddr,
    y: IpAddr,
)
    requires
        call_ensures(Sim::set_link_max_message_latency::<A, B>, (sim, a, b, value), ()),
        are_named(old(sim)@.world, a, b, i, j, x, y),
    ensures
        ({
            let p = top::pair(x, y);
            let (l, m) = (old(sim)@.world.topology.links[p], final(sim)@.world.topology.links[p]);
            &&& keeps_messages(l, m)
            &&& m.state_a_b == l.state_a_b && m.state_b_a == l.state_b_a
            &&& m.latency matches Some(t) && t.max_message_latency == value
        }),
{
    let v = old(sim)@.world;
    links::law_action_reaches_every_pair(
        v,
        LinkAction::SetMaxLatency(value),
        a.resolved_all(v.dns),
        b.resolved_all(v.dns),
        i,
        j,
    );
}

} // verus!
