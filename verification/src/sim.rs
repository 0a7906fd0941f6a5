//! A simulation, and how it moves on.
use crate::addr::{IpAddr, Key};
use crate::config::{Config, Latency};
use crate::dns::{Dns, DnsView, ToIpAddr, ToIpAddrs};
use crate::error::{Cause, Error, ErrorKind};
use crate::host::{HostTimer, HostView};
use crate::ip::{IpSubnets, IpVersion, IpVersionAddrIter};
use crate::ordered;
use crate::ordered::{Entries, KeyMap};
use crate::random;
use crate::rt;
use crate::rt::{Role, Rt, TaskEnd};
use crate::time::Duration;
use crate::top;
use crate::top::{LinkAction, LinksIter, TopologyView};
use crate::world;
use crate::world::{World, WorldView};
use rand::rngs::SmallRng;
use vstd::prelude::*;

verus! {

/// A simulation.
pub struct Sim {
    config: Config,
    world: World,
    rng: SmallRng,
    rts: KeyMap<(IpAddr, Rt)>,
    elapsed: Duration,
    steps: usize,
}

/// A simulation.
#[verifier::ext_equal]
pub struct SimView {
    /// Its settings.
    pub config: Config,
    /// The hosts and the network between them.
    pub world: WorldView,
    /// The addresses of the hosts that have a runtime, in the order in which they came.
    pub order: Seq<IpAddr>,
    /// The runtime of each of them.
    pub rts: Map<IpAddr, Rt>,
    /// How long it has been running.
    pub elapsed: Duration,
    /// The number of the next step.
    pub steps: usize,
}

type Held = (IpAddr, Rt);

spec fn held_wf(e: Entries<Key, Held>) -> bool {
    &&& e.wf()
    &&& forall|k: Key| #[trigger] e.has(k) ==> e.map[k].0.key() == k
}

spec fn shown_rts(e: Entries<Key, Held>) -> Map<IpAddr, Rt> {
    ordered::rekeyed(e, top::ip_key()).map_values(|h: Held| h.1)
}

spec fn shown_order(e: Entries<Key, Held>) -> Seq<IpAddr> {
    e.order.map_values(|k: Key| e.map[k].0)
}

proof fn lemma_changed(e: Entries<Key, Held>, a: IpAddr, h: Held)
    requires
        held_wf(e),
        h.0 == a,
    ensures
        held_wf(e.with(a.key(), h)),
        shown_rts(e.with(a.key(), h)) == shown_rts(e).insert(a, h.1),
        shown_order(e.with(a.key(), h)) == (if e.has(a.key()) {
            shown_order(e)
        } else {
            shown_order(e).push(a)
        }),
{
    world::lemma_ip_keys_are_faithful();
    let after = e.with(a.key(), h);
    e.lemma_with(a.key(), h);
    ordered::lemma_rekeyed_with(e, top::ip_key(), a, h);
    assert(top::ip_key()(a) == a.key());
    assert(shown_rts(after) =~= shown_rts(e).insert(a, h.1));
    assert forall|k: Key| #[trigger] after.has(k) implies after.map[k].0.key() == k by {
        if k != a.key() {
            assert(e.has(k));
        }
    }
    if e.has(a.key()) {
        assert(top::ip_key()(e.map[a.key()].0) == top::ip_key()(a));
    }
    assert forall|i: int| 0 <= i < e.order.len() implies #[trigger] shown_order(after)[i]
        == shown_order(e)[i] by {
        e.lemma_nth(i);
    }
    if e.has(a.key()) {
        assert(shown_order(after) =~= shown_order(e));
    } else {
        assert(shown_order(after) =~= shown_order(e).push(a));
    }
}

proof fn lemma_at(e: Entries<Key, Held>, i: int)
    requires
        held_wf(e),
        0 <= i < e.order.len(),
    ensures
        e.has(e.order[i]),
        shown_order(e)[i].key() == e.order[i],
        shown_rts(e).contains_key(shown_order(e)[i]),
        shown_rts(e)[shown_order(e)[i]] == e.nth(i).1,
        e.nth(i).0 == shown_order(e)[i],
{
    e.lemma_nth(i);
    assert(top::ip_key()(shown_order(e)[i]) == e.order[i]);
}

impl View for Sim {
    type V = SimView;

    closed spec fn view(&self) -> SimView {
        SimView {
            config: self.config,
            world: self.world@,
            order: shown_order(self.rts@),
            rts: shown_rts(self.rts@),
            elapsed: self.elapsed,
            steps: self.steps,
        }
    }
}

/// Those of the first `n` hosts whose software runs, or does not.
pub open spec fn hosts_where(v: SimView, running: bool, n: int) -> Seq<IpAddr>
    decreases n,
{
    if n <= 0 {
        Seq::empty()
    } else {
        let rest = hosts_where(v, running, n - 1);
        if v.rts[v.order[n - 1]].running == running {
            rest.push(v.order[n - 1])
        } else {
            rest
        }
    }
}

impl SimView {
    /// A simulation without hosts.
    pub open spec fn fresh(config: Config, latency: Latency, version: IpVersion) -> SimView {
        SimView {
            config,
            world: WorldView {
                order: Seq::empty(),
                hosts: Map::empty(),
                topology: TopologyView {
                    latency,
                    order: Seq::empty(),
                    links: Map::empty(),
                    now: Duration { nanos: 0 },
                },
                dns: DnsView {
                    addrs: IpVersionAddrIter { version, next: 1 },
                    subnets: Seq::empty(),
                    counters: Seq::empty(),
                    names: Entries::none(),
                },
                groups: Map::empty(),
                current: None,
            },
            order: Seq::empty(),
            rts: Map::empty(),
            elapsed: Duration { nanos: 0 },
            steps: 1,
        }
    }

    /// The address that a new host has.
    pub open spec fn new_addr(self, asked: Option<IpAddr>) -> IpAddr {
        match asked {
            Some(a) => a,
            None => crate::ip::version_addr(self.world.dns.addrs.version, self.world.dns.addrs.next),
        }
    }

    /// The simulation with a host more, which is known by the name and has links to all others.
    pub open spec fn added(self, name: Seq<u8>, asked: Option<IpAddr>, rt: Rt) -> SimView {
        let addr = self.new_addr(asked);
        let named = WorldView { dns: self.world.dns.registered_alone(name, asked), ..self.world };
        let host = HostView::fresh(
            addr,
            HostTimer::fresh(self.elapsed, self.config.epoch),
            self.config.ephemeral_ports,
            self.config.tcp_capacity,
            self.config.udp_capacity,
        );
        SimView {
            world: named.registered(addr, host),
            order: self.order.push(addr),
            rts: self.rts.insert(addr, rt),
            ..self
        }
    }

    /// Whether the hosts of the world are those that have a runtime.
    pub open spec fn wf(self) -> bool {
        &&& self.rts.dom() == self.world.hosts.dom()
        &&& self.order.no_duplicates()
        &&& forall|a: IpAddr| #[trigger] self.rts.contains_key(a) <==> self.order.contains(a)
    }

    /// The simulation after something is done to the links between some hosts and others.
    pub open spec fn acted_on(self, action: LinkAction, a: Seq<IpAddr>, b: Seq<IpAddr>) -> SimView {
        SimView { world: self.world.acted_on(action, a, b), ..self }
    }

    /// The simulation with the runtime of a host changed.
    pub open spec fn with_rt(self, a: IpAddr, rt: Rt) -> SimView {
        SimView { rts: self.rts.insert(a, rt), ..self }
    }

    /// The simulation at the start of a step of the host: it has what is ready for it, and its
    /// clock reads so.
    pub open spec fn entered(self, a: IpAddr, clock: Duration) -> SimView {
        let t = self.world.topology;
        let h = t.delivered(self.world.hosts[a], t.order.len() as int);
        SimView {
            world: WorldView {
                hosts: self.world.hosts.insert(
                    a,
                    HostView { timer: HostTimer { now: Some(clock), ..h.timer }, ..h },
                ),
                topology: t.drained(a),
                current: Some(a),
                ..self.world
            },
            ..self
        }
    }

    /// The simulation with a step added to the time of the host.
    pub open spec fn host_ticked(self, a: IpAddr) -> SimView {
        let h = self.world.hosts[a];
        SimView {
            world: WorldView {
                hosts: self.world.hosts.insert(
                    a,
                    HostView {
                        timer: HostTimer {
                            elapsed: Duration {
                                nanos: (h.timer.elapsed.nanos + self.config.tick.nanos) as u128,
                            },
                            ..h.timer
                        },
                        ..h
                    },
                ),
                ..self.world
            },
            ..self
        }
    }

    /// The simulation with a step added to the times of the first `n` of some hosts.
    pub open spec fn all_ticked(self, hosts: Seq<IpAddr>, n: int) -> SimView
        decreases n,
    {
        if n <= 0 {
            self
        } else {
            self.all_ticked(hosts, n - 1).host_ticked(hosts[n - 1])
        }
    }

    /// Whether a further step fits in the time of the host.
    pub open spec fn host_has_time(self, a: IpAddr) -> bool {
        self.world.hosts[a].timer.elapsed.nanos + self.config.tick.nanos <= u128::MAX
    }

    /// Whether a further step fits in the time of the simulation.
    pub open spec fn has_time(self) -> bool {
        &&& self.elapsed.nanos + self.config.tick.nanos <= u128::MAX
        &&& self.steps < usize::MAX
    }

    /// The runtimes with those of the first `n` of some hosts stopped or started.
    pub open spec fn rts_set(self, hosts: Seq<IpAddr>, running: bool, n: int) -> Map<IpAddr, Rt>
        decreases n,
    {
        if n <= 0 {
            self.rts
        } else {
            let before = self.rts_set(hosts, running, n - 1);
            before.insert(hosts[n - 1], Rt { running, ..before[hosts[n - 1]] })
        }
    }
}

impl Sim {
    /// Whether the parts are well formed, the host of each name has an address, and the hosts
    /// of the world are those that have a runtime.
    pub closed spec fn wf(&self) -> bool {
        &&& self.world.wf()
        &&& self@.world.dns.all_addressed()
        &&& held_wf(self.rts@)
        &&& self@.rts.dom() == self@.world.hosts.dom()
    }

    /// The well formed simulation as it is seen.
    pub proof fn lemma_wf(&self)
        requires
            self.wf(),
        ensures
            self@.wf(),
            self@.world.wf(),
            self@.world.dns.wf(),
            self@.world.topology.wf(),
            forall|a: IpAddr| #[trigger]
                self@.world.hosts.contains_key(a) ==> self@.world.hosts[a].addr == a,
    {
        let e = self.rts@;
        let v = self@;
        world::lemma_ip_keys_are_faithful();
        self.world.lemma_wf();
        assert forall|i: int, j: int|
            0 <= i < v.order.len() && 0 <= j < v.order.len() && i != j implies v.order[i]
            != v.order[j] by {
            lemma_at(e, i);
            lemma_at(e, j);
            assert(e.order[i] != e.order[j]);
        }
        assert forall|a: IpAddr| #[trigger] v.rts.contains_key(a) <==> v.order.contains(a) by {
            assert(top::ip_key()(a) == a.key());
            if v.rts.contains_key(a) {
                let i = e.lemma_index(a.key());
                lemma_at(e, i);
                assert(top::ip_key()(v.order[i]) == top::ip_key()(a));
                assert(v.order[i] == a);
            }
            if v.order.contains(a) {
                let i = choose|i: int| 0 <= i < v.order.len() && v.order[i] == a;
                lemma_at(e, i);
            }
        }
    }

    /// A simulation without hosts.
    pub fn new(config: Config, latency: Latency, version: IpVersion, seed: Option<u64>) -> (r: Sim)
        ensures
            r.wf(),
            r@ == SimView::fresh(config, latency, version),
    {
        let dns = Dns::new(version.iter(), IpSubnets::new());
        let r = Sim {
            config,
            world: World::new(latency, dns),
            rng: random::generator(seed),
            rts: KeyMap::new(),
            elapsed: Duration::zero(),
            steps: 1,
        };
        proof {
            assert(r@.order =~= Seq::empty());
            assert(r@.rts =~= Map::empty());
            assert(r@.rts.dom() =~= r@.world.hosts.dom());
            assert(r@.world.dns.counters =~= Seq::empty());
            assert(r@ =~= SimView::fresh(config, latency, version));
        }
        r
    }

    /// The hosts and the network between them.
    pub fn world(&self) -> (r: &World)
        requires
            self.wf(),
        ensures
            r.wf(),
            r@ == self@.world,
    {
        &self.world
    }

    /// The generator of the random numbers.
    pub closed spec fn generator(&self) -> SmallRng {
        self.rng
    }

    /// The generator of the random numbers, to draw from.
    pub fn rng(&mut self) -> (r: &mut SmallRng)
        requires
            old(self).wf(),
        ensures
            *r == old(self).generator(),
            final(self).generator() == *final(r),
            final(self)@ == old(self)@,
            final(self).wf(),
    {
        &mut self.rng
    }

    /// The hosts and the network between them, to be changed.
    pub fn world_mut(&mut self) -> (r: &mut World)
        requires
            old(self).wf(),
        ensures
            r.wf(),
            r@ == old(self)@.world,
            final(self)@ == (SimView { world: final(r)@, ..old(self)@ }),
            final(r).wf() && final(r)@.hosts.dom() == r@.hosts.dom()
                && final(r)@.dns.all_addressed() ==> final(self).wf(),
    {
        &mut self.world
    }

    /// The address of the host.
    pub fn lookup<T: ToIpAddr>(&self, addr: &T) -> (r: IpAddr)
        requires
            self.wf(),
            addr.resolved(self@.world.dns) is Some,
        ensures
            r == addr.resolved(self@.world.dns)->0,
    {
        self.world.lookup(addr)
    }

    /// The addresses of the hosts.
    pub fn lookup_many<T: ToIpAddrs>(&self, addr: &T) -> (r: Vec<IpAddr>)
        requires
            self.wf(),
        ensures
            r@ == addr.resolved_all(self@.world.dns),
    {
        self.world.lookup_many(addr)
    }

    /// The name of the host at the address.
    pub fn reverse_lookup(&self, addr: IpAddr) -> (r: Option<Vec<u8>>)
        requires
            self.wf(),
        ensures
            match r {
                Some(name) => {
                    let i = self@.world.dns.first_named(addr, 0);
                    i < self@.world.dns.names.order.len() && name@
                        == self@.world.dns.names.order[i]
                },
                None => self@.world.dns.first_named(addr, 0) == self@.world.dns.names.order.len(),
            },
    {
        self.world.reverse_lookup(addr)
    }

    /// The names of two hosts, such as those of a link.
    pub fn reverse_lookup_pair(&self, pair: (IpAddr, IpAddr)) -> (r: (Vec<u8>, Vec<u8>))
        requires
            self.wf(),
            self@.world.dns.first_named(pair.0, 0) < self@.world.dns.names.order.len(),
            self@.world.dns.first_named(pair.1, 0) < self@.world.dns.names.order.len(),
        ensures
            r.0@ == self@.world.dns.names.order[self@.world.dns.first_named(pair.0, 0)],
            r.1@ == self@.world.dns.names.order[self@.world.dns.first_named(pair.1, 0)],
    {
        let first = self.world.reverse_lookup(pair.0);
        let second = self.world.reverse_lookup(pair.1);
        (first.unwrap(), second.unwrap())
    }

    /// Keeps the messages between some hosts and others until they are released.
    pub fn hold<A: ToIpAddrs, B: ToIpAddrs>(&mut self, a: &A, b: &B)
        requires
            old(self).wf(),
            world::all_linked(
                old(self)@.world.topology,
                a.resolved_all(old(self)@.world.dns),
                b.resolved_all(old(self)@.world.dns),
            ),
        ensures
            final(self).wf(),
            final(self)@ == old(self)@.acted_on(
                LinkAction::Hold,
                a.resolved_all(old(self)@.world.dns),
                b.resolved_all(old(self)@.world.dns),
            ),
    {
        self.world.hold_many(a, b);
    }

    /// Has the messages between some hosts and others that were kept delivered.
    pub fn release<A: ToIpAddrs, B: ToIpAddrs>(&mut self, a: &A, b: &B)
        requires
            old(self).wf(),
            world::all_linked(
                old(self)@.world.topology,
                a.resolved_all(old(self)@.world.dns),
                b.resolved_all(old(self)@.world.dns),
            ),
        ensures
            final(self).wf(),
            final(self)@ == old(self)@.acted_on(
                LinkAction::Release,
                a.resolved_all(old(self)@.world.dns),
                b.resolved_all(old(self)@.world.dns),
            ),
    {
        self.world.release_many(a, b);
    }

    /// Drops the messages between some hosts and others.
    pub fn partition<A: ToIpAddrs, B: ToIpAddrs>(&mut self, a: &A, b: &B)
        requires
            old(self).wf(),
            world::all_linked(
                old(self)@.world.topology,
                a.resolved_all(old(self)@.world.dns),
                b.resolved_all(old(self)@.world.dns),
            ),
        ensures
            final(self).wf(),
            final(self)@ == old(self)@.acted_on(
                LinkAction::Partition,
                a.resolved_all(old(self)@.world.dns),
                b.resolved_all(old(self)@.world.dns),
            ),
    {
        self.world.partition_many(a, b);
    }

    /// Drops the messages from some hosts to others.
    pub fn partition_oneway<A: ToIpAddrs, B: ToIpAddrs>(&mut self, from: &A, to: &B)
        requires
            old(self).wf(),
            world::all_linked(
                old(self)@.world.topology,
                from.resolved_all(old(self)@.world.dns),
                to.resolved_all(old(self)@.world.dns),
            ),
        ensures
            final(self).wf(),
            final(self)@ == old(self)@.acted_on(
                LinkAction::PartitionOneway,
                from.resolved_all(old(self)@.world.dns),
                to.resolved_all(old(self)@.world.dns),
            ),
    {
        self.world.partition_oneway_many(from, to);
    }

    /// Lets the messages between some hosts and others pass.
    pub fn repair<A: ToIpAddrs, B: ToIpAddrs>(&mut self, a: &A, b: &B)
        requires
            old(self).wf(),
            world::all_linked(
                old(self)@.world.topology,
                a.resolved_all(old(self)@.world.dns),
                b.resolved_all(old(self)@.world.dns),
            ),
        ensures
            final(self).wf(),
            final(self)@ == old(self)@.acted_on(
                LinkAction::Repair,
                a.resolved_all(old(self)@.world.dns),
                b.resolved_all(old(self)@.world.dns),
            ),
    {
        self.world.repair_many(a, b);
    }

    /// Lets the messages from some hosts to others pass.
    pub fn repair_oneway<A: ToIpAddrs, B: ToIpAddrs>(&mut self, from: &A, to: &B)
        requires
            old(self).wf(),
            world::all_linked(
                old(self)@.world.topology,
                from.resolved_all(old(self)@.world.dns),
                to.resolved_all(old(self)@.world.dns),
            ),
        ensures
            final(self).wf(),
            final(self)@ == old(self)@.acted_on(
                LinkAction::RepairOneway,
                from.resolved_all(old(self)@.world.dns),
                to.resolved_all(old(self)@.world.dns),
            ),
    {
        self.world.repair_oneway_many(from, to);
    }

    /// Sets how long a message travels at most, on links that have no bounds of their own.
    pub fn set_max_message_latency(&mut self, value: Duration)
        requires
            old(self).wf(),
        ensures
            final(self).wf(),
            final(self)@ == (SimView {
                world: WorldView {
                    topology: TopologyView {
                        latency: Latency {
                            max_message_latency: value,
                            ..old(self)@.world.topology.latency
                        },
                        ..old(self)@.world.topology
                    },
                    ..old(self)@.world
                },
                ..old(self)@
            }),
    {
        let topology = self.world.topology_mut();
        topology.set_max_message_latency(value);
    }

    /// Has messages between some hosts and others travel exactly so long.
    pub fn set_link_latency<A: ToIpAddrs, B: ToIpAddrs>(&mut self, a: &A, b: &B, value: Duration)
        requires
            old(self).wf(),
            world::all_linked(
                old(self)@.world.topology,
                a.resolved_all(old(self)@.world.dns),
                b.resolved_all(old(self)@.world.dns),
            ),
        ensures
            final(self).wf(),
            final(self)@ == old(self)@.acted_on(
                LinkAction::SetLatency(value),
                a.resolved_all(old(self)@.world.dns),
                b.resolved_all(old(self)@.world.dns),
            ),
    {
        let a = self.world.lookup_many(a);
        let b = self.world.lookup_many(b);
        self.world.for_pairs(LinkAction::SetLatency(value), &a, &b);
    }

    /// Has messages between some hosts and others travel at most so long.
    pub fn set_link_max_message_latency<A: ToIpAddrs, B: ToIpAddrs>(
        &mut self,
        a: &A,
        b: &B,
        value: Duration,
    )
        requires
            old(self).wf(),
            world::all_linked(
                old(self)@.world.topology,
                a.resolved_all(old(self)@.world.dns),
                b.resolved_all(old(self)@.world.dns),
            ),
        ensures
            final(self).wf(),
            final(self)@ == old(self)@.acted_on(
                LinkAction::SetMaxLatency(value),
                a.resolved_all(old(self)@.world.dns),
                b.resolved_all(old(self)@.world.dns),
            ),
    {
        let a = self.world.lookup_many(a);
        let b = self.world.lookup_many(b);
        self.world.for_pairs(LinkAction::SetMaxLatency(value), &a, &b);
    }

    /// Goes through the links, to look into the messages on them.
    pub fn links(&self) -> (r: LinksIter)
        requires
            self.wf(),
        ensures
            r == (LinksIter { next: 0 }),
    {
        self.world.topology().iter_mut()
    }

    /// How long the simulation has been running.
    pub fn elapsed(&self) -> (r: Duration)
        ensures
            r == self@.elapsed,
    {
        self.elapsed
    }

    /// The number of the next step.
    pub fn steps(&self) -> (r: usize)
        ensures
            r == self@.steps,
    {
        self.steps
    }

    /// The time from the epoch until now.
    pub fn since_epoch(&self) -> (r: Duration)
        requires
            self@.config.epoch.nanos + self@.elapsed.nanos <= u128::MAX,
        ensures
            r.nanos == self@.config.epoch.nanos + self@.elapsed.nanos,
    {
        self.config.epoch.plus(self.elapsed)
    }

    /// The address that a new host would have.
    pub fn new_addr<T: ToIpAddr>(&self, addr: &T) -> (r: IpAddr)
        requires
            self.wf(),
        ensures
            r == self@.new_addr(addr.resolved(self@.world.dns)),
    {
        match addr.to_ip_addr(self.world.dns()) {
            Some(a) => a,
            None => self.world.dns().next_addr(),
        }
    }

    fn add<T: ToIpAddr>(&mut self, addr: &T, rt: Rt) -> (r: (Vec<u8>, IpAddr))
        requires
            old(self).wf(),
            !old(self)@.world.hosts.contains_key(
                old(self)@.new_addr(addr.resolved(old(self)@.world.dns)),
            ),
            old(self)@.config.ephemeral_ports.first <= old(self)@.config.ephemeral_ports.last,
        ensures
            final(self).wf(),
            r.0@ == addr.name_text(),
            r.1 == old(self)@.new_addr(addr.resolved(old(self)@.world.dns)),
            final(self)@ == old(self)@.added(
                addr.name_text(),
                addr.resolved(old(self)@.world.dns),
                rt,
            ),
    {
        let ghost before = self@;
        proof {
            self.lemma_wf();
        }
        let (name, a) = self.world.register_name(addr);
        let timer = HostTimer::new(self.elapsed, self.config.epoch);
        self.world.register(a, timer, &self.config);
        let ghost e = self.rts@;
        proof {
            assert(top::ip_key()(a) == a.key());
            assert(before.rts.dom().contains(a) == before.world.hosts.dom().contains(a));
            lemma_changed(e, a, (a, rt));
        }
        let _ = self.rts.insert(a.key(), (a, rt));
        proof {
            assert(self@.rts.dom() =~= self@.world.hosts.dom());
            assert forall|n: Seq<u8>| #[trigger]
                self@.world.dns.names.has(n) implies self@.world.dns.names.map[n].len() > 0 by {
                if n != name@ {
                    assert(before.world.dns.names.has(n));
                }
            }
        }
        (name, a)
    }

    /// Adds a client, which runs a test. It has the address that it asks for, or else a fresh
    /// one, and links to all other hosts.
    pub fn client<T: ToIpAddr>(&mut self, addr: &T) -> (r: (Vec<u8>, IpAddr))
        requires
            old(self).wf(),
            !old(self)@.world.hosts.contains_key(
                old(self)@.new_addr(addr.resolved(old(self)@.world.dns)),
            ),
            old(self)@.config.ephemeral_ports.first <= old(self)@.config.ephemeral_ports.last,
        ensures
            final(self).wf(),
            r.0@ == addr.name_text(),
            r.1 == old(self)@.new_addr(addr.resolved(old(self)@.world.dns)),
            final(self)@ == old(self)@.added(
                addr.name_text(),
                addr.resolved(old(self)@.world.dns),
                Rt { role: Role::Client, running: true },
            ),
    {
        self.add(addr, Rt::client())
    }

    /// Adds a host, whose software can be started again. It has the address that it asks for,
    /// or else a fresh one, and links to all other hosts.
    pub fn host<T: ToIpAddr>(&mut self, addr: &T) -> (r: (Vec<u8>, IpAddr))
        requires
            old(self).wf(),
            !old(self)@.world.hosts.contains_key(
                old(self)@.new_addr(addr.resolved(old(self)@.world.dns)),
            ),
            old(self)@.config.ephemeral_ports.first <= old(self)@.config.ephemeral_ports.last,
        ensures
            final(self).wf(),
            r.0@ == addr.name_text(),
            r.1 == old(self)@.new_addr(addr.resolved(old(self)@.world.dns)),
            final(self)@ == old(self)@.added(
                addr.name_text(),
                addr.resolved(old(self)@.world.dns),
                Rt { role: Role::Host, running: true },
            ),
    {
        self.add(addr, Rt::host())
    }

    fn rt(&self, a: IpAddr) -> (r: Rt)
        requires
            self.wf(),
            self@.rts.contains_key(a),
        ensures
            r == self@.rts[a],
    {
        assert(top::ip_key()(a) == a.key());
        self.rts.get(a.key()).unwrap().1
    }

    fn set_rt(&mut self, a: IpAddr, rt: Rt)
        requires
            old(self).wf(),
            old(self)@.rts.contains_key(a),
        ensures
            final(self).wf(),
            final(self)@ == old(self)@.with_rt(a, rt),
    {
        let ghost e = self.rts@;
        proof {
            assert(top::ip_key()(a) == a.key());
            lemma_changed(e, a, (a, rt));
        }
        let _ = self.rts.insert(a.key(), (a, rt));
        proof {
            assert(self@.rts.dom() =~= old(self)@.rts.dom());
            assert(self@ =~= old(self)@.with_rt(a, rt));
        }
    }

    /// Whether the software of the host runs.
    pub fn is_host_running<T: ToIpAddr>(&self, addr: &T) -> (r: bool)
        requires
            self.wf(),
            addr.resolved(self@.world.dns) is Some,
            self@.rts.contains_key(addr.resolved(self@.world.dns)->0),
        ensures
            r == self@.rts[addr.resolved(self@.world.dns)->0].running,
    {
        let a = self.world.lookup(addr);
        self.rt(a).is_software_running()
    }

    /// Stops the software of the hosts. Returns those whose tasks are to be cancelled.
    pub fn crash<T: ToIpAddrs>(&mut self, addrs: &T) -> (r: Vec<IpAddr>)
        requires
            old(self).wf(),
            forall|i: int|
                #![trigger addrs.resolved_all(old(self)@.world.dns)[i]]
                0 <= i < addrs.resolved_all(old(self)@.world.dns).len() ==> {
                    let a = addrs.resolved_all(old(self)@.world.dns)[i];
                    old(self)@.rts.contains_key(a) && old(self)@.rts[a].role is Host
                },
        ensures
            final(self).wf(),
            ({
                let hosts = addrs.resolved_all(old(self)@.world.dns);
                &&& final(self)@ == (SimView {
                    rts: old(self)@.rts_set(hosts, false, hosts.len() as int),
                    world: WorldView { current: None, ..old(self)@.world },
                    ..old(self)@
                })
                &&& r@ == cancelled(old(self)@, hosts, hosts.len() as int)
            }),
    {
        let ghost start = self@;
        let hosts = self.world.lookup_many(addrs);
        let mut out: Vec<IpAddr> = Vec::new();
        let mut i: usize = 0;
        while i < hosts.len()
            invariant
                i <= hosts@.len(),
                start == old(self)@,
                self.wf(),
                self@ == (SimView { rts: start.rts_set(hosts@, false, i as int), ..start }),
                forall|k: int|
                    #![trigger hosts@[k]]
                    0 <= k < hosts@.len() ==> start.rts.contains_key(hosts@[k])
                        && start.rts[hosts@[k]].role is Host,
                out@ == cancelled(start, hosts@, i as int),
            decreases hosts.len() - i,
        {
            let a = hosts[i];
            proof {
                lemma_rts_set(start, hosts@, false, i as int);
                assert(start.rts.contains_key(hosts@[i as int]));
            }
            let mut rt = self.rt(a);
            if rt.crash() {
                out.push(a);
            }
            self.set_rt(a, rt);
            i = i + 1;
        }
        self.world.set_current(None);
        out
    }

    /// Starts the software of the hosts again. Returns the hosts, whose tasks are to be
    /// cancelled and spawned anew.
    pub fn bounce<T: ToIpAddrs>(&mut self, addrs: &T) -> (r: Vec<IpAddr>)
        requires
            old(self).wf(),
            forall|i: int|
                #![trigger addrs.resolved_all(old(self)@.world.dns)[i]]
                0 <= i < addrs.resolved_all(old(self)@.world.dns).len() ==> {
                    let a = addrs.resolved_all(old(self)@.world.dns)[i];
                    old(self)@.rts.contains_key(a) && old(self)@.rts[a].role is Host
                },
        ensures
            final(self).wf(),
            ({
                let hosts = addrs.resolved_all(old(self)@.world.dns);
                &&& final(self)@ == (SimView {
                    rts: old(self)@.rts_set(hosts, true, hosts.len() as int),
                    world: WorldView { current: None, ..old(self)@.world },
                    ..old(self)@
                })
                &&& r@ == hosts
            }),
    {
        let ghost start = self@;
        let hosts = self.world.lookup_many(addrs);
        let mut i: usize = 0;
        while i < hosts.len()
            invariant
                i <= hosts@.len(),
                start == old(self)@,
                self.wf(),
                self@ == (SimView { rts: start.rts_set(hosts@, true, i as int), ..start }),
                forall|k: int|
                    #![trigger hosts@[k]]
                    0 <= k < hosts@.len() ==> start.rts.contains_key(hosts@[k])
                        && start.rts[hosts@[k]].role is Host,
            decreases hosts.len() - i,
        {
            let a = hosts[i];
            proof {
                lemma_rts_set(start, hosts@, true, i as int);
                assert(start.rts.contains_key(hosts@[i as int]));
            }
            let mut rt = self.rt(a);
            rt.bounce();
            self.set_rt(a, rt);
            i = i + 1;
        }
        self.world.set_current(None);
        hosts
    }

    /// Whether a client has been added. Without one there is nothing to run.
    pub fn has_client(&self) -> (r: bool)
        requires
            self.wf(),
        ensures
            r == (exists|a: IpAddr| #[trigger]
                self@.rts.contains_key(a) && self@.rts[a].role is Client),
    {
        let n: usize = self.rts.len();
        let ghost e = self.rts@;
        let mut i: usize = 0;
        while i < n
            invariant
                i <= n,
                e == self.rts@,
                n == e.order.len(),
                held_wf(e),
                forall|k: int|
                    #![trigger e.order[k]]
                    0 <= k < i ==> !(e.nth(k).1.role is Client),
            decreases n - i,
        {
            match self.rts.get_index(i) {
                Some((_, held)) => {
                    if held.1.is_client() {
                        proof {
                            lemma_at(e, i as int);
                            assert(self@.rts.contains_key(held.0));
                        }
                        return true;
                    }
                },
                None => {},
            }
            i = i + 1;
        }
        proof {
            assert forall|a: IpAddr| #[trigger] self@.rts.contains_key(a) implies !(
            self@.rts[a].role is Client) by {
                assert(top::ip_key()(a) == a.key());
                let k = e.lemma_index(a.key());
                assert(e.order[k] == a.key());
            }
        }
        false
    }

    fn hosts_running(&self, running: bool) -> (r: Vec<IpAddr>)
        requires
            self.wf(),
        ensures
            r@ == hosts_where(self@, running, self@.order.len() as int),
    {
        let n: usize = self.rts.len();
        let ghost e = self.rts@;
        let mut out: Vec<IpAddr> = Vec::new();
        let mut i: usize = 0;
        while i < n
            invariant
                i <= n,
                e == self.rts@,
                n == e.order.len(),
                held_wf(e),
                out@ == hosts_where(self@, running, i as int),
            decreases n - i,
        {
            match self.rts.get_index(i) {
                Some((_, held)) => {
                    proof {
                        lemma_at(e, i as int);
                    }
                    if held.1.running == running {
                        out.push(held.0);
                    }
                },
                None => {},
            }
            i = i + 1;
        }
        out
    }

    /// Starts a step: the network moves on. Returns the hosts whose software runs, in the order
    /// in which they are to run, and the others.
    pub fn begin_step(&mut self) -> (r: (Vec<IpAddr>, Vec<IpAddr>))
        requires
            old(self).wf(),
            old(self)@.world.topology.now.nanos + old(self)@.config.tick.nanos <= u128::MAX,
        ensures
            final(self).wf(),
            final(self)@ == (SimView {
                world: WorldView {
                    topology: old(self)@.world.topology.ticked(old(self)@.config.tick),
                    ..old(self)@.world
                },
                ..old(self)@
            }),
            ({
                let running = hosts_where(old(self)@, true, old(self)@.order.len() as int);
                if old(self)@.config.random_node_order {
                    r.0@.to_multiset() == running.to_multiset()
                } else {
                    r.0@ == running
                }
            }),
            r.1@ == hosts_where(old(self)@, false, old(self)@.order.len() as int),
            r.1@.no_duplicates(),
            forall|i: int|
                0 <= i < r.1@.len() ==> old(self)@.world.hosts.contains_key(#[trigger] r.1@[i]),
    {
        let tick = self.config.tick;
        let ghost start = self@;
        let ghost t = start.world.topology;
        proof {
            self.lemma_wf();
            self.world.lemma_wf();
            assert(t.ticked(tick).links.dom() =~= t.links.dom());
            assert(world::same_links(t.ticked(tick), t));
        }
        let topology = self.world.topology_mut();
        topology.tick_by(tick);
        let running = self.hosts_running(true);
        let stopped = self.hosts_running(false);
        proof {
            self.lemma_wf();
            lemma_hosts_where_same(start, self@, true, start.order.len() as int);
            lemma_hosts_where_same(start, self@, false, start.order.len() as int);
            lemma_hosts_where(start, false, start.order.len() as int);
            assert forall|i: int| 0 <= i < stopped@.len() implies start.world.hosts.contains_key(
                #[trigger] stopped@[i],
            ) by {
                assert(hosts_where(start, false, start.order.len() as int).contains(stopped@[i]));
                assert(start.rts.dom().contains(stopped@[i]));
            }
        }
        if self.config.random_node_order {
            let order = self.random_order(&running);
            (order, stopped)
        } else {
            (running, stopped)
        }
    }

    fn random_order(&mut self, hosts: &Vec<IpAddr>) -> (r: Vec<IpAddr>)
        requires
            old(self).wf(),
        ensures
            final(self).wf(),
            final(self)@ == old(self)@,
            r@.to_multiset() == hosts@.to_multiset(),
    {
        let n: usize = hosts.len();
        let mut indices: Vec<usize> = Vec::new();
        let mut i: usize = 0;
        while i < n
            invariant
                i <= n,
                indices@ == numbers(i as nat),
            decreases n - i,
        {
            indices.push(i);
            i = i + 1;
            assert(indices@ =~= numbers(i as nat));
        }
        random::shuffle(&mut self.rng, &mut indices);
        let ghost shuffled = indices@;
        proof {
            lemma_permuted(shuffled, n as nat);
            lemma_picked_multiset(hosts@, shuffled);
        }
        let mut out: Vec<IpAddr> = Vec::new();
        let mut j: usize = 0;
        while j < indices.len()
            invariant
                j <= indices@.len(),
                indices@ == shuffled,
                n == hosts@.len(),
                forall|k: int| 0 <= k < shuffled.len() ==> #[trigger] shuffled[k] < n,
                out@ == picked(hosts@, shuffled).take(j as int),
            decreases indices.len() - j,
        {
            let k: usize = indices[j];
            assert(shuffled[j as int] < n);
            out.push(hosts[k]);
            j = j + 1;
            assert(out@ =~= picked(hosts@, shuffled).take(j as int));
        }
        assert(out@ =~= picked(hosts@, shuffled));
        out
    }

    /// Starts the step of a host: it gets the messages that are ready for it, and is the one
    /// that is running. A request for a connection that finds no room at its socket is noted
    /// as the overflow of the host.
    pub fn enter_host(&mut self, addr: IpAddr, clock: Duration)
        requires
            old(self).wf(),
            old(self)@.world.hosts.contains_key(addr),
            old(self)@.world.topology.is_deliverable(addr),
        ensures
            final(self).wf(),
            final(self)@ == old(self)@.entered(addr, clock),
    {
        let ghost start = self@;
        proof {
            self.lemma_wf();
            let t = start.world.topology;
            top::lemma_delivered_addr(t, start.world.hosts[addr], t.order.len() as int);
        }
        self.world.deliver_messages(addr);
        self.world.set_current(Some(addr));
        let host = self.world.current_host_mut();
        host.timer.now(clock);
        proof {
            assert(self@.world.hosts =~= start.entered(addr, clock).world.hosts);
            assert(self@.world.hosts.dom() =~= start.world.hosts.dom());
            assert(self@ =~= start.entered(addr, clock));
        }
    }

    /// Whether the time of the network has room for a further step.
    pub fn can_begin_step(&self) -> (r: bool)
        requires
            self.wf(),
        ensures
            r == (self@.world.topology.now.nanos + self@.config.tick.nanos <= u128::MAX),
    {
        self.world.topology().can_tick_by(self.config.tick)
    }

    /// Whether the host takes in everything that is ready for it.
    pub fn can_enter_host(&self, addr: IpAddr) -> (r: bool)
        requires
            self.wf(),
        ensures
            r == self@.world.topology.is_deliverable(addr),
    {
        self.world.topology().can_deliver(addr)
    }

    /// Whether a further step fits in the time of the host.
    pub fn host_has_time(&self, addr: IpAddr) -> (r: bool)
        requires
            self.wf(),
            self@.world.hosts.contains_key(addr),
        ensures
            r == self@.host_has_time(addr),
    {
        self.config.tick.nanos <= u128::MAX - self.world.host(addr).timer.elapsed.nanos
    }

    /// Whether a further step fits in the time of the simulation.
    pub fn has_time(&self) -> (r: bool)
        ensures
            r == self@.has_time(),
    {
        self.config.tick.nanos <= u128::MAX - self.elapsed.nanos && self.steps < usize::MAX
    }

    /// Ends the step of a host. Returns whether its software has finished; for the software of
    /// a host that is not waited for this is true. Where it failed the step is not ended.
    pub fn leave_host(&mut self, addr: IpAddr, end: Option<TaskEnd>) -> (r: Result<bool, Error>)
        requires
            old(self).wf(),
            old(self)@.rts.contains_key(addr),
            old(self)@.host_has_time(addr),
        ensures
            final(self).wf(),
            ({
                let before = old(self)@;
                let rt = before.rts[addr];
                let after = before.with_rt(addr, Rt { running: rt.running && end is None, ..rt });
                match rt::ticked(rt, end) {
                    Err(e) => r == Err::<bool, Error>(e) && final(self)@ == after,
                    Ok(finished) => {
                        &&& r == Ok::<bool, Error>(finished || !(rt.role is Client))
                        &&& final(self)@ == (SimView {
                            world: WorldView { current: None, ..after.world },
                            ..after
                        }).host_ticked(addr)
                    },
                }
            }),
    {
        let mut rt = self.rt(addr);
        let ghost before = self@;
        proof {
            self.lemma_wf();
        }
        let ended = rt.tick(end);
        self.set_rt(addr, rt);
        match ended {
            Err(e) => Err(e),
            Ok(finished) => {
                self.world.set_current(None);
                let tick = self.config.tick;
                proof {
                    assert(before.rts.dom().contains(addr));
                    assert(self@.world.hosts.contains_key(addr));
                }
                self.world.tick(addr, tick);
                proof {
                    assert(self@.world.hosts.dom() =~= before.world.hosts.dom());
                }
                Ok(finished || !rt.is_client())
            },
        }
    }

    /// Ends a step: the hosts whose software did not run keep up with the time. Returns whether
    /// all clients have finished; where they have not and the time is over, that is an error.
    pub fn end_step(&mut self, stopped: &Vec<IpAddr>, is_finished: bool) -> (r: Result<bool, Error>)
        requires
            old(self).wf(),
            old(self)@.has_time(),
            stopped@.no_duplicates(),
            forall|i: int|
                0 <= i < stopped@.len() ==> old(self)@.world.hosts.contains_key(
                    #[trigger] stopped@[i],
                ) && old(self)@.host_has_time(stopped@[i]),
        ensures
            final(self).wf(),
            ({
                let elapsed = Duration {
                    nanos: (old(self)@.elapsed.nanos + old(self)@.config.tick.nanos) as u128,
                };
                &&& final(self)@ == (SimView {
                    elapsed,
                    steps: (old(self)@.steps + 1) as usize,
                    ..old(self)@.all_ticked(stopped@, stopped@.len() as int)
                })
                &&& r == (if elapsed.nanos > old(self)@.config.duration.nanos && !is_finished {
                    Err(Error { kind: ErrorKind::Other, cause: Cause::DurationExceeded })
                } else {
                    Ok::<bool, Error>(is_finished)
                })
            }),
    {
        let ghost start = self@;
        let tick = self.config.tick;
        let mut i: usize = 0;
        while i < stopped.len()
            invariant
                i <= stopped@.len(),
                start == old(self)@,
                start.has_time(),
                tick == start.config.tick,
                self.wf(),
                self@ == start.all_ticked(stopped@, i as int),
                stopped@.no_duplicates(),
                forall|k: int|
                    0 <= k < stopped@.len() ==> start.world.hosts.contains_key(
                        #[trigger] stopped@[k],
                    ) && start.host_has_time(stopped@[k]),
            decreases stopped.len() - i,
        {
            let a = stopped[i];
            proof {
                lemma_all_ticked(start, stopped@, i as int);
                assert(start.world.hosts.contains_key(stopped@[i as int]));
                assert(self@.world.hosts[a] == start.world.hosts[a]);
            }
            let ghost before = self@;
            self.world.tick(a, tick);
            proof {
                assert(self@.world.hosts.dom() =~= before.world.hosts.dom());
                assert(self@ =~= before.host_ticked(a));
            }
            i = i + 1;
        }
        proof {
            lemma_all_ticked(start, stopped@, stopped@.len() as int);
        }
        self.elapsed = self.elapsed.plus(tick);
        self.steps = self.steps + 1;
        if self.elapsed.nanos > self.config.duration.nanos && !is_finished {
            return Err(Error::new(ErrorKind::Other, Cause::DurationExceeded));
        }
        Ok(is_finished)
    }
}

/// Those of the first `n` of some hosts whose software runs when it is stopped.
pub open spec fn cancelled(v: SimView, hosts: Seq<IpAddr>, n: int) -> Seq<IpAddr>
    decreases n,
{
    if n <= 0 {
        Seq::empty()
    } else {
        let rest = cancelled(v, hosts, n - 1);
        if v.rts_set(hosts, false, n - 1)[hosts[n - 1]].running {
            rest.push(hosts[n - 1])
        } else {
            rest
        }
    }
}

proof fn lemma_rts_set(v: SimView, hosts: Seq<IpAddr>, running: bool, n: int)
    requires
        0 <= n <= hosts.len(),
        forall|k: int|
            #![trigger hosts[k]]
            0 <= k < hosts.len() ==> v.rts.contains_key(hosts[k]),
    ensures
        v.rts_set(hosts, running, n).dom() == v.rts.dom(),
        forall|a: IpAddr| #[trigger]
            v.rts.contains_key(a) ==> v.rts_set(hosts, running, n)[a].role == v.rts[a].role,
    decreases n,
{
    if n > 0 {
        lemma_rts_set(v, hosts, running, n - 1);
        assert(v.rts.contains_key(hosts[n - 1]));
        assert(v.rts_set(hosts, running, n).dom() =~= v.rts.dom());
    }
}

proof fn lemma_hosts_where_same(v: SimView, w: SimView, running: bool, n: int)
    requires
        v.rts == w.rts,
        v.order == w.order,
    ensures
        hosts_where(v, running, n) == hosts_where(w, running, n),
    decreases n,
{
    if n > 0 {
        lemma_hosts_where_same(v, w, running, n - 1);
    }
}

proof fn lemma_hosts_where(v: SimView, running: bool, n: int)
    requires
        v.wf(),
        0 <= n <= v.order.len(),
    ensures
        hosts_where(v, running, n).no_duplicates(),
        forall|a: IpAddr| #[trigger]
            hosts_where(v, running, n).contains(a) <==> v.order.take(n).contains(a)
                && v.rts[a].running == running,
        forall|a: IpAddr| #[trigger]
            hosts_where(v, running, n).contains(a) ==> v.rts.contains_key(a),
    decreases n,
{
    let here = hosts_where(v, running, n);
    if n > 0 {
        lemma_hosts_where(v, running, n - 1);
        let before = hosts_where(v, running, n - 1);
        let x = v.order[n - 1];
        assert(v.order.take(n) =~= v.order.take(n - 1).push(x));
        assert(!v.order.take(n - 1).contains(x)) by {
            if v.order.take(n - 1).contains(x) {
                let shorter = v.order.take(n - 1);
                let k = choose|k: int| 0 <= k < shorter.len() && shorter[k] == x;
                assert(v.order[k] == v.order[n - 1]);
            }
        }
        assert(!before.contains(x));
        assert forall|a: IpAddr| #[trigger] here.contains(a) <==> v.order.take(n).contains(a)
            && v.rts[a].running == running by {
            assert(before.contains(a) <==> v.order.take(n - 1).contains(a) && v.rts[a].running
                == running);
            let longer = v.order.take(n - 1).push(x);
            if longer.contains(a) {
                let k = choose|k: int| 0 <= k < longer.len() && longer[k] == a;
                if k < n - 1 {
                    assert(v.order.take(n - 1)[k] == a);
                }
            }
            if v.order.take(n - 1).contains(a) {
                let shorter = v.order.take(n - 1);
                let k = choose|k: int| 0 <= k < shorter.len() && shorter[k] == a;
                assert(longer[k] == a);
            }
            if a == x {
                assert(longer[n - 1] == a);
            }
            if here.contains(a) {
                let k = choose|k: int| 0 <= k < here.len() && here[k] == a;
                if k < before.len() {
                    assert(before[k] == a);
                }
            }
            if before.contains(a) {
                let k = choose|k: int| 0 <= k < before.len() && before[k] == a;
                assert(here[k] == a);
            }
            if a == x && v.rts[x].running == running {
                assert(here[before.len() as int] == a);
            }
        }
        assert forall|i: int, j: int| 0 <= i < here.len() && 0 <= j < here.len() && i != j implies
            here[i] != here[j] by {
            if i == before.len() {
                assert(before.contains(before[j]));
            }
            if j == before.len() {
                assert(before.contains(before[i]));
            }
        }
    }
    assert forall|a: IpAddr| #[trigger] here.contains(a) implies v.rts.contains_key(a) by {
        assert(v.order.take(n).contains(a));
        let some = v.order.take(n);
        let k = choose|k: int| 0 <= k < some.len() && some[k] == a;
        assert(v.order[k] == a);
        assert(v.order.contains(a));
    }
}

/// In each step every host is either one whose software runs or one that only keeps up with the
/// time, and none is both or comes twice.
pub proof fn law_every_host_has_its_step(v: SimView, a: IpAddr)
    requires
        v.wf(),
        v.rts.contains_key(a),
    ensures
        ({
            let running = hosts_where(v, true, v.order.len() as int);
            let stopped = hosts_where(v, false, v.order.len() as int);
            &&& running.no_duplicates() && stopped.no_duplicates()
            &&& running.contains(a) == v.rts[a].running
            &&& stopped.contains(a) == !v.rts[a].running
        }),
{
    let n = v.order.len() as int;
    lemma_hosts_where(v, true, n);
    lemma_hosts_where(v, false, n);
    assert(v.order.take(n) =~= v.order);
    assert(v.order.contains(a));
}

/// A host that keeps up with the time without running has a step added to its time, once.
pub proof fn law_stopped_hosts_keep_up(v: SimView, hosts: Seq<IpAddr>, i: int)
    requires
        hosts.no_duplicates(),
        forall|k: int|
            0 <= k < hosts.len() ==> v.world.hosts.contains_key(#[trigger] hosts[k]),
        0 <= i < hosts.len(),
        v.host_has_time(hosts[i]),
    ensures
        v.all_ticked(hosts, hosts.len() as int).world.hosts[hosts[i]].timer.elapsed.nanos
            == v.world.hosts[hosts[i]].timer.elapsed.nanos + v.config.tick.nanos,
{
    lemma_ticked_once(v, hosts, hosts.len() as int, i);
}

proof fn lemma_ticked_once(v: SimView, hosts: Seq<IpAddr>, n: int, i: int)
    requires
        hosts.no_duplicates(),
        forall|k: int|
            0 <= k < hosts.len() ==> v.world.hosts.contains_key(#[trigger] hosts[k]),
        0 <= i < n <= hosts.len(),
        v.host_has_time(hosts[i]),
    ensures
        v.all_ticked(hosts, n).world.hosts[hosts[i]].timer.elapsed.nanos
            == v.world.hosts[hosts[i]].timer.elapsed.nanos + v.config.tick.nanos,
    decreases n,
{
    lemma_all_ticked(v, hosts, n - 1);
    assert(v.world.hosts.contains_key(hosts[i]));
    if i < n - 1 {
        lemma_ticked_once(v, hosts, n - 1, i);
        assert(hosts[i] != hosts[n - 1]);
    }
}

proof fn lemma_all_ticked(v: SimView, hosts: Seq<IpAddr>, n: int)
    requires
        0 <= n <= hosts.len(),
        hosts.no_duplicates(),
        forall|k: int|
            0 <= k < hosts.len() ==> v.world.hosts.contains_key(#[trigger] hosts[k]),
    ensures
        ({
            let w = v.all_ticked(hosts, n);
            &&& w.world.hosts.dom() == v.world.hosts.dom()
            &&& w.config == v.config
            &&& w.elapsed == v.elapsed
            &&& w.steps == v.steps
            &&& w.rts == v.rts
            &&& w.order == v.order
            &&& forall|k: int|
                n <= k < hosts.len() ==> w.world.hosts[#[trigger] hosts[k]]
                    == v.world.hosts[hosts[k]]
        }),
    decreases n,
{
    if n > 0 {
        lemma_all_ticked(v, hosts, n - 1);
        assert(v.world.hosts.contains_key(hosts[n - 1]));
        assert(v.all_ticked(hosts, n).world.hosts.dom() =~= v.world.hosts.dom());
    }
}

/// The numbers from zero on, so many.
pub open spec fn numbers(n: nat) -> Seq<usize> {
    Seq::new(n, |i: int| i as usize)
}

/// The elements at the indices.
pub open spec fn picked<T>(s: Seq<T>, indices: Seq<usize>) -> Seq<T> {
    indices.map_values(|i: usize| s[i as int])
}

/// Numbers that are those from zero on in some order are all below their count.
proof fn lemma_permuted(indices: Seq<usize>, n: nat)
    requires
        indices.to_multiset() == numbers(n).to_multiset(),
        n <= usize::MAX,
    ensures
        forall|k: int| 0 <= k < indices.len() ==> #[trigger] indices[k] < n,
{
    broadcast use vstd::seq_lib::group_to_multiset_ensures;

    assert forall|k: int| 0 <= k < indices.len() implies #[trigger] indices[k] < n by {
        assert(indices.contains(indices[k]));
        assert(indices.to_multiset().contains(indices[k]));
        assert(numbers(n).to_multiset().contains(indices[k]));
        assert(numbers(n).contains(indices[k]));
    }
}

/// Picking at the indices from zero on in some order gives the same elements.
proof fn lemma_picked_multiset<T>(s: Seq<T>, indices: Seq<usize>)
    requires
        indices.to_multiset() == numbers(s.len()).to_multiset(),
        s.len() <= usize::MAX,
    ensures
        picked(s, indices).to_multiset() == s.to_multiset(),
        picked(s, indices).len() == indices.len(),
{
    let f = |i: usize| s[i as int];
    lemma_map_multiset(indices, numbers(s.len()), f);
    assert(numbers(s.len()).map_values(f) =~= s);
}

/// The elements of sequences with the same elements are mapped to the same elements.
proof fn lemma_map_multiset<A, B>(a: Seq<A>, b: Seq<A>, f: spec_fn(A) -> B)
    requires
        a.to_multiset() == b.to_multiset(),
    ensures
        a.map_values(f).to_multiset() == b.map_values(f).to_multiset(),
    decreases a.len(),
{
    broadcast use vstd::seq_lib::group_to_multiset_ensures;

    if a.len() == 0 {
        assert(b.len() == 0) by {
            a.to_multiset_ensures();
            b.to_multiset_ensures();
        }
        assert(a.map_values(f) =~= b.map_values(f));
    } else {
        let x = a.last();
        let shorter = a.drop_last();
        assert(a =~= shorter.push(x));
        assert(a.contains(x));
        assert(a.to_multiset().contains(x));
        assert(b.to_multiset().contains(x));
        assert(b.contains(x));
        let i = choose|i: int| 0 <= i < b.len() && b[i] == x;
        let rest = b.remove(i);
        assert(rest.to_multiset() == b.to_multiset().remove(x));
        assert(shorter =~= a.remove(a.len() - 1));
        assert(shorter.to_multiset() == a.to_multiset().remove(x));
        lemma_map_multiset(shorter, rest, f);
        assert(a.map_values(f) =~= shorter.map_values(f).push(f(x)));
        assert(rest.map_values(f) =~= b.map_values(f).remove(i));
        assert(b.map_values(f)[i] == f(x));
        assert(rest.map_values(f).to_multiset() == b.map_values(f).to_multiset().remove(f(x)));
        assert(b.map_values(f).contains(f(x)));
        assert(b.map_values(f).to_multiset().contains(f(x)));
        assert(b.map_values(f).to_multiset().remove(f(x)).insert(f(x))
            =~= b.map_values(f).to_multiset());
    }
}

} // verus!
