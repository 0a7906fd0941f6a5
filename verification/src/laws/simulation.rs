//! Laws of a simulation: which hosts run in a step, what crashes and bounces do, and what a new
//! host finds.
use crate::addr;
use crate::addr::IpAddr;
use crate::envelope::EnvelopeView;
use crate::error::Error;
use crate::host::HostView;
use crate::partition_logger;
use crate::rt;
use crate::rt::{Rt, TaskEnd};
use crate::sim;
use crate::sim::SimView;
use crate::time::Duration;
use crate::top;
use crate::top::{LinkView, Pair, TopologyView};
use crate::world;
use crate::world::WorldView;
use vstd::prelude::*;

verus! {

/// In a step the hosts whose software runs have their turn in the order in which they came, and
/// the others keep up with the time, in that order too.
pub proof fn law_hosts_have_their_turn(v: SimView)
    ensures
        sim::hosts_where(v, true, v.order.len() as int) == v.order.filter(
            |a: IpAddr| v.rts[a].running,
        ),
        sim::hosts_where(v, false, v.order.len() as int) == v.order.filter(
            |a: IpAddr| !v.rts[a].running,
        ),
{
    let n = v.order.len() as int;
    lemma_hosts_where(v, n);
    assert(v.order.take(n) =~= v.order);
}

proof fn lemma_hosts_where(v: SimView, n: int)
    requires
        0 <= n <= v.order.len(),
    ensures
        sim::hosts_where(v, true, n) == v.order.take(n).filter(|a: IpAddr| v.rts[a].running),
        sim::hosts_where(v, false, n) == v.order.take(n).filter(|a: IpAddr| !v.rts[a].running),
    decreases n,
{
    reveal(Seq::filter);
    if n > 0 {
        lemma_hosts_where(v, n - 1);
        assert(v.order.take(n).drop_last() =~= v.order.take(n - 1));
    } else {
        assert(v.order.take(0).filter(|a: IpAddr| v.rts[a].running) =~= Seq::empty());
        assert(v.order.take(0).filter(|a: IpAddr| !v.rts[a].running) =~= Seq::empty());
    }
}

/// Stopping or starting some hosts stops or starts the software of each of them and of no other.
/// What a host is stays.
pub proof fn law_named_hosts_are_stopped_or_started(
    v: SimView,
    hosts: Seq<IpAddr>,
    running: bool,
    a: IpAddr,
)
    requires
        forall|k: int|
            #![trigger hosts[k]]
            0 <= k < hosts.len() ==> v.rts.contains_key(hosts[k]),
    ensures
        ({
            let after = v.rts_set(hosts, running, hosts.len() as int);
            &&& after.dom() == v.rts.dom()
            &&& hosts.contains(a) ==> after[a].running == running && after[a].role == v.rts[a].role
            &&& !hosts.contains(a) && v.rts.contains_key(a) ==> after[a] == v.rts[a]
        }),
{
    lemma_rts_set(v, hosts, running, hosts.len() as int, a);
    assert(hosts.take(hosts.len() as int) =~= hosts);
}

proof fn lemma_rts_set(v: SimView, hosts: Seq<IpAddr>, running: bool, n: int, a: IpAddr)
    requires
        0 <= n <= hosts.len(),
        forall|k: int|
            #![trigger hosts[k]]
            0 <= k < hosts.len() ==> v.rts.contains_key(hosts[k]),
    ensures
        ({
            let after = v.rts_set(hosts, running, n);
            &&& after.dom() == v.rts.dom()
            &&& hosts.take(n).contains(a) ==> after[a].running == running && after[a].role
                == v.rts[a].role
            &&& !hosts.take(n).contains(a) && v.rts.contains_key(a) ==> after[a] == v.rts[a]
        }),
    decreases n,
{
    if n > 0 {
        lemma_rts_set(v, hosts, running, n - 1, a);
        let x = hosts[n - 1];
        assert(v.rts.contains_key(x));
        assert(v.rts_set(hosts, running, n).dom() =~= v.rts.dom());
        let (before, here) = (hosts.take(n - 1), hosts.take(n));
        assert(here[n - 1] == x);
        if before.contains(a) {
            let k = choose|k: int| 0 <= k < before.len() && before[k] == a;
            assert(here[k] == a);
        }
        if here.contains(a) && a != x {
            let k = choose|k: int| 0 <= k < here.len() && here[k] == a;
            assert(before[k] == a);
        }
    }
}

/// A crash has the tasks cancelled of just those named hosts whose software was running, once
/// each, in the order in which they are named.
pub proof fn law_crash_cancels_running_software(v: SimView, hosts: Seq<IpAddr>, a: IpAddr)
    requires
        forall|k: int|
            #![trigger hosts[k]]
            0 <= k < hosts.len() ==> v.rts.contains_key(hosts[k]),
    ensures
        ({
            let r = sim::cancelled(v, hosts, hosts.len() as int);
            &&& r.contains(a) == (hosts.contains(a) && v.rts[a].running)
            &&& r.no_duplicates()
            &&& hosts.no_duplicates() ==> r == hosts.filter(|a: IpAddr| v.rts[a].running)
        }),
{
    let n = hosts.len() as int;
    lemma_cancelled(v, hosts, n, a);
    assert(hosts.take(n) =~= hosts);
    if hosts.no_duplicates() {
        lemma_cancelled_in_order(v, hosts, n);
    }
}

proof fn lemma_cancelled(v: SimView, hosts: Seq<IpAddr>, n: int, a: IpAddr)
    requires
        0 <= n <= hosts.len(),
        forall|k: int|
            #![trigger hosts[k]]
            0 <= k < hosts.len() ==> v.rts.contains_key(hosts[k]),
    ensures
        ({
            let r = sim::cancelled(v, hosts, n);
            &&& r.contains(a) == (hosts.take(n).contains(a) && v.rts[a].running)
            &&& r.no_duplicates()
        }),
    decreases n,
{
    let r = sim::cancelled(v, hosts, n);
    if n > 0 {
        lemma_cancelled(v, hosts, n - 1, a);
        let x = hosts[n - 1];
        lemma_cancelled(v, hosts, n - 1, x);
        lemma_rts_set(v, hosts, false, n - 1, x);
        assert(v.rts.contains_key(x));
        let s = sim::cancelled(v, hosts, n - 1);
        let (before, here) = (hosts.take(n - 1), hosts.take(n));
        assert(here[n - 1] == x);
        if before.contains(a) {
            let k = choose|k: int| 0 <= k < before.len() && before[k] == a;
            assert(here[k] == a);
        }
        if here.contains(a) && a != x {
            let k = choose|k: int| 0 <= k < here.len() && here[k] == a;
            assert(before[k] == a);
        }
        if r.contains(a) {
            let k = choose|k: int| 0 <= k < r.len() && r[k] == a;
            if k < s.len() {
                assert(s[k] == a);
            }
        }
        if s.contains(a) {
            let k = choose|k: int| 0 <= k < s.len() && s[k] == a;
            assert(r[k] == a);
        }
        if r.len() > s.len() {
            assert(r[s.len() as int] == x);
            assert(!s.contains(x));
            assert forall|i: int, j: int| 0 <= i < r.len() && 0 <= j < r.len() && i != j implies
                r[i] != r[j] by {
                if i == s.len() {
                    assert(s.contains(s[j]));
                }
                if j == s.len() {
                    assert(s.contains(s[i]));
                }
            }
        }
    }
}

proof fn lemma_cancelled_in_order(v: SimView, hosts: Seq<IpAddr>, n: int)
    requires
        0 <= n <= hosts.len(),
        hosts.no_duplicates(),
        forall|k: int|
            #![trigger hosts[k]]
            0 <= k < hosts.len() ==> v.rts.contains_key(hosts[k]),
    ensures
        sim::cancelled(v, hosts, n) == hosts.take(n).filter(|a: IpAddr| v.rts[a].running),
    decreases n,
{
    reveal(Seq::filter);
    if n > 0 {
        lemma_cancelled_in_order(v, hosts, n - 1);
        let x = hosts[n - 1];
        assert(hosts.take(n).drop_last() =~= hosts.take(n - 1));
        lemma_rts_set(v, hosts, false, n - 1, x);
        assert(v.rts.contains_key(x));
        let before = hosts.take(n - 1);
        if before.contains(x) {
            let k = choose|k: int| 0 <= k < before.len() && before[k] == x;
            assert(hosts[k] == hosts[n - 1]);
        }
    } else {
        assert(hosts.take(0).filter(|a: IpAddr| v.rts[a].running) =~= Seq::empty());
    }
}

/// A step adds its time to that of each of the hosts that keep up with it, and to no other. All
/// else about the hosts, the network and the names stays.
pub proof fn law_step_adds_its_time(v: SimView, hosts: Seq<IpAddr>, a: IpAddr)
    requires
        hosts.no_duplicates(),
        forall|k: int|
            0 <= k < hosts.len() ==> v.world.hosts.contains_key(#[trigger] hosts[k])
                && v.world.hosts[hosts[k]].timer.elapsed.nanos + v.config.tick.nanos <= u128::MAX,
    ensures
        ({
            let after = v.all_ticked(hosts, hosts.len() as int);
            let (x, y) = (v.world.hosts[a], after.world.hosts[a]);
            &&& (after.config, after.order, after.rts, after.elapsed, after.steps) == (
                v.config,
                v.order,
                v.rts,
                v.elapsed,
                v.steps,
            )
            &&& (
                after.world.order,
                after.world.topology,
                after.world.dns,
                after.world.groups,
                after.world.current,
            ) == (v.world.order, v.world.topology, v.world.dns, v.world.groups, v.world.current)
            &&& after.world.hosts.dom() == v.world.hosts.dom()
            &&& !hosts.contains(a) && v.world.hosts.contains_key(a) ==> y == x
            &&& hosts.contains(a) ==> {
                &&& y.timer.elapsed.nanos == x.timer.elapsed.nanos + v.config.tick.nanos
                &&& (y.timer.now, y.timer.start_offset, y.timer.epoch) == (
                    x.timer.now,
                    x.timer.start_offset,
                    x.timer.epoch,
                )
                &&& (y.addr, y.udp, y.tcp, y.next_port, y.ports, y.overflow) == (
                    x.addr,
                    x.udp,
                    x.tcp,
                    x.next_port,
                    x.ports,
                    x.overflow,
                )
            }
        }),
{
    lemma_ticked(v, hosts, hosts.len() as int, a);
    assert(hosts.take(hosts.len() as int) =~= hosts);
}

proof fn lemma_ticked(v: SimView, hosts: Seq<IpAddr>, n: int, a: IpAddr)
    requires
        0 <= n <= hosts.len(),
        hosts.no_duplicates(),
        forall|k: int|
            0 <= k < hosts.len() ==> v.world.hosts.contains_key(#[trigger] hosts[k])
                && v.world.hosts[hosts[k]].timer.elapsed.nanos + v.config.tick.nanos <= u128::MAX,
    ensures
        ({
            let after = v.all_ticked(hosts, n);
            let (x, y) = (v.world.hosts[a], after.world.hosts[a]);
            &&& after == (SimView {
                world: WorldView { hosts: after.world.hosts, ..v.world },
                ..v
            })
            &&& after.world.hosts.dom() == v.world.hosts.dom()
            &&& !hosts.take(n).contains(a) && v.world.hosts.contains_key(a) ==> y == x
            &&& hosts.take(n).contains(a) ==> y == (HostView {
                timer: crate::host::HostTimer {
                    elapsed: Duration {
                        nanos: (x.timer.elapsed.nanos + v.config.tick.nanos) as u128,
                    },
                    ..x.timer
                },
                ..x
            })
        }),
    decreases n,
{
    if n > 0 {
        lemma_ticked(v, hosts, n - 1, a);
        let x = hosts[n - 1];
        lemma_ticked(v, hosts, n - 1, x);
        assert(v.world.hosts.contains_key(x));
        assert(v.all_ticked(hosts, n).world.hosts.dom() =~= v.world.hosts.dom());
        let (before, here) = (hosts.take(n - 1), hosts.take(n));
        assert(here[n - 1] == x);
        if before.contains(x) {
            let k = choose|k: int| 0 <= k < before.len() && before[k] == x;
            assert(hosts[k] == hosts[n - 1]);
        }
        if before.contains(a) {
            let k = choose|k: int| 0 <= k < before.len() && before[k] == a;
            assert(here[k] == a);
        }
        if here.contains(a) && a != x {
            let k = choose|k: int| 0 <= k < here.len() && here[k] == a;
            assert(before[k] == a);
        }
    }
}

/// Software that was running has finished after a step once it ended, whether of itself or by a
/// crash, and goes on where it did not end; what failed gives its error. Software that was not
/// running has finished.
pub proof fn law_software_after_a_step(rt: Rt, end: Option<TaskEnd>)
    ensures
        rt::ticked(rt, end) is Err <==> rt.running && end == Some(TaskEnd::Failed),
        rt::ticked(rt, end) matches Err(e) ==> e.kind is Other && e.cause is SoftwareFailed,
        rt::ticked(rt, end) == Ok::<bool, Error>(false) <==> rt.running && end is None,
        rt::ticked(rt, end) == Ok::<bool, Error>(true) <==> !rt.running || end == Some(
            TaskEnd::Finished,
        ) || end == Some(TaskEnd::Cancelled),
{
}

/// A new host has a healthy link without messages to each host that was there, and to no other;
/// the links between the others stay, before the new ones in their order.
pub proof fn law_new_host_is_linked_to_all(w: WorldView, a: IpAddr, h: HostView, x: IpAddr, p: Pair)
    requires
        w.order.no_duplicates(),
        !w.order.contains(a),
    ensures
        ({
            let after = w.registered(a, h);
            let t = after.topology;
            &&& after.order == w.order.push(a)
            &&& after.hosts == w.hosts.insert(a, h)
            &&& (after.dns, after.groups, after.current) == (w.dns, w.groups, w.current)
            &&& (t.latency, t.now) == (w.topology.latency, w.topology.now)
            &&& w.order.contains(x) ==> {
                let q = top::pair(x, a);
                let l = t.links[q];
                &&& t.links.contains_key(q) && (q == Pair(x, a) || q == Pair(a, x))
                &&& l.pair == q && l.state_a_b is Healthy && l.state_b_a is Healthy
                &&& l.latency is None && l.sent.len() == 0 && l.now == w.topology.now
                &&& forall|b: IpAddr| #[trigger] l.ready[b] == Seq::<EnvelopeView>::empty()
            }
            &&& p.0 != a && p.1 != a ==> t.links.contains_key(p) == w.topology.links.contains_key(p)
            &&& p.0 != a && p.1 != a && w.topology.links.contains_key(p) ==> t.links[p]
                == w.topology.links[p]
            &&& t.links.contains_key(p) && !w.topology.links.contains_key(p) ==> {
                ||| p.0 == a && w.order.contains(p.1)
                ||| p.1 == a && w.order.contains(p.0)
            }
            &&& t.order == w.topology.order + w.order.map_values(|x: IpAddr| top::pair(x, a))
        }),
{
    let n = w.order.len() as int;
    lemma_linked_to(w.topology, w.order, a, n, x, p);
    assert(w.order.take(n) =~= w.order);
}

proof fn lemma_linked_to(
    t: TopologyView,
    hosts: Seq<IpAddr>,
    a: IpAddr,
    n: int,
    x: IpAddr,
    p: Pair,
)
    requires
        0 <= n <= hosts.len(),
        hosts.no_duplicates(),
        !hosts.contains(a),
    ensures
        ({
            let after = world::linked_to(t, hosts, a, n);
            &&& (after.latency, after.now) == (t.latency, t.now)
            &&& hosts.take(n).contains(x) ==> after.links.contains_key(top::pair(x, a))
                && after.links[top::pair(x, a)] == LinkView::fresh(top::pair(x, a), t.now)
            &&& p.0 != a && p.1 != a ==> after.links.contains_key(p) == t.links.contains_key(p)
            &&& p.0 != a && p.1 != a && t.links.contains_key(p) ==> after.links[p] == t.links[p]
            &&& after.links.contains_key(p) && !t.links.contains_key(p) ==> {
                ||| p.0 == a && hosts.contains(p.1)
                ||| p.1 == a && hosts.contains(p.0)
            }
            &&& after.order == t.order + hosts.take(n).map_values(|x: IpAddr| top::pair(x, a))
        }),
    decreases n,
{
    let link = |x: IpAddr| top::pair(x, a);
    if n > 0 {
        lemma_linked_to(t, hosts, a, n - 1, x, p);
        let y = hosts[n - 1];
        assert(hosts.contains(y));
        addr::law_addresses_are_ordered(x, a);
        addr::law_addresses_are_ordered(y, a);
        let (before, here) = (hosts.take(n - 1), hosts.take(n));
        assert(here[n - 1] == y);
        if here.contains(x) && x != y {
            let k = choose|k: int| 0 <= k < here.len() && here[k] == x;
            assert(before[k] == x);
            assert(hosts.contains(x)) by {
                assert(hosts[k] == x);
            }
        }
        assert(t.order + here.map_values(link) =~= (t.order + before.map_values(link)).push(
            link(y),
        ));
    } else {
        assert(t.order + hosts.take(0).map_values(link) =~= t.order);
    }
}

/// A new host has the address that it asks for or else the next one; no socket, no time behind
/// it, and the ports and the room of the settings. Its time starts with the simulation's. It is
/// the last in line, and nothing else about the simulation changes.
pub proof fn law_new_host_starts_fresh(v: SimView, name: Seq<u8>, asked: Option<IpAddr>, rt: Rt)
    ensures
        ({
            let a = v.new_addr(asked);
            let after = v.added(name, asked, rt);
            let h = after.world.hosts[a];
            &&& asked matches Some(x) ==> a == x
            &&& asked is None ==> a == crate::ip::version_addr(
                v.world.dns.addrs.version,
                v.world.dns.addrs.next,
            )
            &&& after.world.hosts.contains_key(a) && after.world.hosts.dom()
                == v.world.hosts.dom().insert(a)
            &&& h.addr == a && h.overflow is None
            &&& h.udp.binds.dom() == Set::<u16>::empty() && h.udp.capacity == v.config.udp_capacity
            &&& h.tcp.binds.dom() == Set::<crate::kernel::Fd>::empty() && h.tcp.sockets.dom()
                == Set::<crate::kernel::Fd>::empty() && h.tcp.fds.dom() == Set::<
                crate::addr::SocketAddr,
            >::empty()
            &&& h.tcp.capacity == v.config.tcp_capacity && h.tcp.next_fd == 0
            &&& h.timer.elapsed.nanos == 0 && h.timer.now is None
            &&& h.timer.start_offset == v.elapsed && h.timer.epoch == v.config.epoch
            &&& h.ports == v.config.ephemeral_ports && h.next_port == h.ports.first
            &&& after.order == v.order.push(a) && after.rts == v.rts.insert(a, rt)
            &&& (after.config, after.elapsed, after.steps) == (v.config, v.elapsed, v.steps)
            &&& after.world.topology == v.world.registered(a, h).topology
            &&& after.world.order == v.world.order.push(a)
        }),
{
    let a = v.new_addr(asked);
    let after = v.added(name, asked, rt);
    let h = after.world.hosts[a];
    assert(after.world.hosts.dom() =~= v.world.hosts.dom().insert(a));
    assert(h.udp.binds.dom() =~= Set::empty());
    assert(h.tcp.binds.dom() =~= Set::empty());
    assert(h.tcp.sockets.dom() =~= Set::empty());
    assert(h.tcp.fds.dom() =~= Set::empty());
}

/// At the start of its step a host takes in what its links have ready for it, its clock is read,
/// and it is the one that runs. Other hosts, the names and the groups stay.
pub proof fn law_host_at_the_start_of_its_step(v: SimView, a: IpAddr, clock: Duration, other: IpAddr)
    requires
        v.world.hosts.contains_key(a),
    ensures
        ({
            let after = v.entered(a, clock);
            let t = v.world.topology;
            let h = t.delivered(v.world.hosts[a], t.order.len() as int);
            let y = after.world.hosts[a];
            &&& (y.addr, y.udp, y.tcp, y.next_port, y.ports, y.overflow) == (
                h.addr,
                h.udp,
                h.tcp,
                h.next_port,
                h.ports,
                h.overflow,
            )
            &&& y.timer.now == Some(clock) && y.timer.elapsed == h.timer.elapsed
                && y.timer.start_offset == h.timer.start_offset && y.timer.epoch == h.timer.epoch
            &&& other != a && v.world.hosts.contains_key(other) ==> after.world.hosts[other]
                == v.world.hosts[other]
            &&& after.world.hosts.dom() == v.world.hosts.dom()
            &&& after.world.topology == t.drained(a)
            &&& after.world.current == Some(a)
            &&& (after.world.order, after.world.dns, after.world.groups) == (
                v.world.order,
                v.world.dns,
                v.world.groups,
            )
            &&& (after.config, after.order, after.rts, after.elapsed, after.steps) == (
                v.config,
                v.order,
                v.rts,
                v.elapsed,
                v.steps,
            )
        }),
{
    assert(v.entered(a, clock).world.hosts.dom() =~= v.world.hosts.dom());
}

/// A host's time is that of its steps so far and what its clock has moved on since the start of
/// this one. It is never less than that of its steps.
pub proof fn law_host_time(timer: crate::host::HostTimer, clock: Duration)
    requires
        timer.now is Some,
    ensures
        clock.nanos >= timer.now->0.nanos ==> timer.elapsed_at(clock) == timer.elapsed.nanos
            + clock.nanos - timer.now->0.nanos,
        clock.nanos < timer.now->0.nanos ==> timer.elapsed_at(clock) == timer.elapsed.nanos,
{
}

/// Hosts in the order of some indices are the hosts at these indices.
pub proof fn law_hosts_at_indices(s: Seq<IpAddr>, indices: Seq<usize>, k: int)
    requires
        0 <= k < indices.len(),
    ensures
        sim::picked(s, indices).len() == indices.len(),
        sim::picked(s, indices)[k] == s[indices[k] as int],
{
}

/// How long messages were dropped is the time from then to now, and never less than none.
pub proof fn law_time_that_passed(start: Duration, now: Duration)
    ensures
        now.nanos >= start.nanos ==> partition_logger::passed(start, now).nanos == now.nanos
            - start.nanos,
        now.nanos < start.nanos ==> partition_logger::passed(start, now).nanos == 0,
{
}

} // verus!
