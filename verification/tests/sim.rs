//! How a simulation moves on.
use rand::Rng;
use turmoil::addr::{IpAddr, Ipv4Addr, Ipv6Addr, SocketAddr};
use turmoil::builder::Builder;
use turmoil::dns::ToIpAddr;
use turmoil::envelope::{Datagram, Protocol, Segment};
use turmoil::error::{Cause, Error, ErrorKind};
use turmoil::ip::IpVersion;
use turmoil::net::stream::Poll;
use turmoil::net::tcp::{Connecting, TcpListener, TcpStream};
use turmoil::net::udp::UdpSocket;
use turmoil::pattern::Pattern;
use turmoil::rt::TaskEnd;
use turmoil::sim::Sim;
use turmoil::time::Duration;
use turmoil::top::Fate;
use turmoil::world::World;

fn builder() -> Builder {
    Builder::new(Duration::zero())
}

fn name(s: &str) -> Vec<u8> {
    s.as_bytes().to_vec()
}

fn any() -> IpAddr {
    IpAddr::V4(Ipv4Addr::unspecified())
}

fn calm() -> Fate {
    Fate { fail: false, repair: false, extra: Duration::zero() }
}

fn on<R>(sim: &mut Sim, host: &str, f: impl FnOnce(&mut World) -> R) -> R {
    let addr = sim.lookup(&name(host));
    sim.world_mut().set_current(Some(addr));
    let r = f(sim.world_mut());
    sim.world_mut().set_current(None);
    r
}

/// A step. For each host it is given how its software ended, where it did.
fn step_with(sim: &mut Sim, mut software: impl FnMut(&Sim, IpAddr) -> Option<TaskEnd>) -> Result<bool, Error> {
    let (running, stopped) = sim.begin_step();
    let clock = sim.elapsed();
    let mut is_finished = true;
    for addr in running {
        sim.enter_host(addr, clock);
        let end = software(sim, addr);
        is_finished = sim.leave_host(addr, end)? && is_finished;
    }
    sim.end_step(&stopped, is_finished)
}

fn step(sim: &mut Sim) -> Result<bool, Error> {
    step_with(sim, |_, _| None)
}

/// Runs until all clients have finished, each after its time.
fn run(sim: &mut Sim, ends: &[(&str, Duration)]) -> Result<(), Error> {
    if !sim.has_client() {
        return Ok(());
    }
    let start = sim.elapsed();
    let ends: Vec<(IpAddr, Duration)> = ends.iter().map(|e| (sim.lookup(&name(e.0)), e.1)).collect();
    loop {
        let is_finished = step_with(sim, |sim, addr| {
            let now = sim.elapsed().saturating_sub(start);
            let end = ends.iter().find(|e| e.0 == addr)?;
            if now.nanos >= end.1.nanos {
                Some(TaskEnd::Finished)
            } else {
                None
            }
        })?;
        if is_finished {
            return Ok(());
        }
    }
}

fn connect(sim: &mut Sim, host: &str, dst: &str, ack: u64) -> Result<Connecting, Error> {
    on(sim, host, |w| TcpStream::connect(w, &name(dst), ack, calm()))
}

#[test]
fn client_error() {
    let mut sim = builder().build();
    sim.client(&name("doomed"));
    let e = step_with(&mut sim, |_, _| Some(TaskEnd::Failed)).unwrap_err();
    assert_eq!(e.cause, Cause::SoftwareFailed);
}

#[test]
fn timeout() {
    let mut sim = builder()
        .simulation_duration(Duration::from_millis(500))
        .build();
    sim.client(&name("timeout"));
    let e = run(&mut sim, &[("timeout", Duration::from_secs(1))]).unwrap_err();
    assert_eq!(e.kind, ErrorKind::Other);
    assert_eq!(e.cause, Cause::DurationExceeded);
}

fn all_finish() {
    let how_many = 3;
    let tick_ms = 10;

    // N = how_many runs, each with a different client finishing immediately
    for run_no in 0..how_many {
        let mut sim = builder().tick_duration(Duration::from_millis(tick_ms)).build();
        let mut names = vec![];
        for client in 0..how_many {
            let n = format!("client-{client}");
            sim.client(&name(&n));
            names.push(n);
        }
        let ends: Vec<(&str, Duration)> = (0..how_many)
            .map(|i| {
                let ms = if run_no == i { 0 } else { 2 * tick_ms };
                (names[i as usize].as_str(), Duration::from_millis(ms))
            })
            .collect();
        run(&mut sim, &ends).unwrap();
        for n in &names {
            assert!(!sim.is_host_running(&name(n)));
        }
    }
}

#[test]
fn sim_multiple_clients_all_finish() {
    all_finish();
}

#[test]
fn ping_pong_multiple_clients_all_finish() {
    all_finish();
}

#[test]
fn elapsed_time() {
    let tick = Duration::from_millis(5);
    let mut sim = builder().tick_duration(tick).build();
    let duration = Duration::from_millis(500);
    sim.client(&name("c1"));
    sim.client(&name("c2"));
    run(&mut sim, &[("c1", duration), ("c2", duration)]).unwrap();

    // sleep duration plus one tick to complete
    assert_eq!(duration.plus(tick), sim.elapsed());
    let start = sim.elapsed();
    sim.client(&name("c3"));
    let c3 = sim.lookup(&name("c3"));
    let mut looked = 0;
    let mut now = Duration::zero();
    loop {
        let is_finished = step_with(&mut sim, |sim, addr| {
            assert_eq!(addr, c3);
            let clock = sim.elapsed();
            assert_eq!(now, turmoil::world::elapsed(sim.world(), clock));
            // Note that sim_elapsed is total simulation time while elapsed
            // starts at zero for this newly created host.
            assert_eq!(
                start.plus(now),
                turmoil::world::sim_elapsed(Some(sim.world()), clock).unwrap()
            );
            looked += 1;
            if now.nanos >= duration.nanos {
                Some(TaskEnd::Finished)
            } else {
                None
            }
        })
        .unwrap();
        now = now.plus(tick);
        if is_finished {
            break;
        }
    }
    assert_eq!(looked, 101);

    // Client "c3" takes one sleep duration plus one tick to complete
    assert_eq!(duration.plus(tick), sim.elapsed().saturating_sub(start));
}

/// It is safe to ask for the time where no world and where no host is set.
#[test]
fn sim_elapsed_time() {
    assert!(turmoil::world::sim_elapsed(None, Duration::zero()).is_none());
    assert!(turmoil::world::since_epoch(None, Duration::zero()).is_none());
    let sim = builder().build();
    assert!(turmoil::world::sim_elapsed(Some(sim.world()), Duration::zero()).is_none());
}

#[test]
fn the_epoch_is_added() {
    let mut sim = Builder::new(Duration::from_secs(5)).build();
    sim.client(&name("c"));
    assert_eq!(sim.since_epoch(), Duration::from_secs(5));
    step(&mut sim).unwrap();
    assert_eq!(sim.since_epoch(), Duration::from_secs(5).plus(Duration::from_millis(1)));
    let mut sim = Builder::new(Duration::from_secs(5)).epoch(Duration::from_secs(9)).build();
    sim.client(&name("c"));
    step_with(&mut sim, |sim, _| {
        let now = turmoil::world::since_epoch(Some(sim.world()), Duration::from_millis(2));
        assert_eq!(now.unwrap(), Duration::from_millis(9002));
        None
    })
    .unwrap();
}

fn latency_pair(global: Duration) -> (Sim, TcpListener) {
    let mut sim = builder()
        .min_message_latency(global)
        .max_message_latency(global)
        .build();
    sim.host(&name("server"));
    sim.client(&name("client"));
    let listener = on(&mut sim, "server", |w| TcpListener::bind(w, &(any(), 1234))).unwrap();
    (sim, listener)
}

#[test]
fn hold_release_peers() {
    let (mut sim, listener) = latency_pair(Duration::from_millis(2));
    sim.hold(&name("server"), &name("client"));
    let asked = connect(&mut sim, "client", "server:1234", 1).unwrap();

    // Verify that msg is not delivered.
    step(&mut sim).unwrap();
    let mut links = sim.links();
    let mut count = 0;
    while links.next(sim.world().topology()).is_some() {
        count += 1;
    }
    assert!(count == 1);

    // Verify that msg is still not delivered.
    step(&mut sim).unwrap();
    assert!(on(&mut sim, "server", |w| listener.poll_accept(w, 0, true)).is_none());

    sim.release(&name("server"), &name("client"));
    step(&mut sim).unwrap();
    assert!(on(&mut sim, "server", |w| listener.poll_accept(w, 0, true)).is_some());
    assert!(matches!(asked.poll(sim.world(), true, false), Poll::Ready(Ok(_))));
}

#[test]
fn partition_peers() {
    let (mut sim, _listener) = latency_pair(Duration::from_millis(2));
    sim.partition(&name("server"), &name("client"));

    // Peers are partitioned. TCP setup should fail.
    let asked = connect(&mut sim, "client", "server:1234", 1).unwrap();
    step(&mut sim).unwrap();
    assert!(matches!(asked.poll(sim.world(), false, false), Poll::Ready(Err(_))));
}

struct Expectation {
    expect_a_receive: bool,
    expect_b_receive: bool,
}

#[derive(Clone, Copy, Debug)]
enum Action {
    Partition,
    PartitionOnewayAB,
    PartitionOnewayBA,
    RepairOnewayAB,
    RepairOnewayBA,
    Repair,
}

fn run_with_partitioning(a_first: bool, partitioning: impl Fn(&mut Sim) -> Expectation) {
    let global = Duration::from_millis(1);
    let mut sim = builder()
        .min_message_latency(global)
        .max_message_latency(global)
        .build();
    if a_first {
        sim.client(&name("a"));
        sim.client(&name("b"));
    } else {
        sim.client(&name("b"));
        sim.client(&name("a"));
    }
    let expected = partitioning(&mut sim);
    let mut at_a = on(&mut sim, "a", |w| UdpSocket::bind(w, &(any(), 1234))).unwrap();
    let mut at_b = on(&mut sim, "b", |w| UdpSocket::bind(w, &(any(), 1234))).unwrap();
    let sent = on(&mut sim, "a", |w| at_a.send_to(w, &[42], &name("b:1234"), &vec![calm()]));
    // sending packet should appear to work, even if partitioned
    sent.result.unwrap();
    let sent = on(&mut sim, "b", |w| at_b.send_to(w, &[42], &name("a:1234"), &vec![calm()]));
    sent.result.unwrap();
    let mut a_did_receive = false;
    let mut b_did_receive = false;
    for _ in 0..1000 {
        step(&mut sim).unwrap();
        let mut buf = [0];
        a_did_receive |= on(&mut sim, "a", |w| at_a.try_recv_from(w, &mut buf)).is_ok();
        b_did_receive |= on(&mut sim, "b", |w| at_b.try_recv_from(w, &mut buf)).is_ok();
    }
    assert_eq!(a_did_receive, expected.expect_a_receive);
    assert_eq!(b_did_receive, expected.expect_b_receive);
}

#[test]
fn partition_peers_oneway() {
    for a_first in [true, false] {
        run_with_partitioning(a_first, |sim| {
            sim.partition_oneway(&name("a"), &name("b"));
            Expectation { expect_a_receive: true, expect_b_receive: false }
        });
    }
}

fn run_with_actions(actions: &[Action]) {
    for a_first in [true, false] {
        run_with_partitioning(a_first, |sim| {
            let (a, b) = (name("a"), name("b"));
            let mut expect_a_receive = true;
            let mut expect_b_receive = true;
            for action in actions {
                match action {
                    Action::Partition => {
                        sim.partition(&a, &b);
                        expect_a_receive = false;
                        expect_b_receive = false;
                    }
                    Action::PartitionOnewayAB => {
                        sim.partition_oneway(&a, &b);
                        expect_b_receive = false;
                    }
                    Action::PartitionOnewayBA => {
                        sim.partition_oneway(&b, &a);
                        expect_a_receive = false;
                    }
                    Action::RepairOnewayAB => {
                        sim.repair_oneway(&a, &b);
                        expect_b_receive = true;
                    }
                    Action::RepairOnewayBA => {
                        sim.repair_oneway(&b, &a);
                        expect_a_receive = true;
                    }
                    Action::Repair => {
                        sim.repair(&a, &b);
                        expect_a_receive = true;
                        expect_b_receive = true;
                    }
                }
            }
            Expectation { expect_a_receive, expect_b_receive }
        });
    }
}

#[test]
fn partition_peers_oneway_many_cases() {
    run_with_actions(&[Action::PartitionOnewayAB]);
    run_with_actions(&[Action::PartitionOnewayBA]);
    run_with_actions(&[Action::Partition, Action::RepairOnewayAB]);
    run_with_actions(&[Action::Partition, Action::RepairOnewayBA]);
    run_with_actions(&[Action::PartitionOnewayAB, Action::Repair]);
    run_with_actions(&[Action::PartitionOnewayBA, Action::Repair]);
    run_with_actions(&[Action::PartitionOnewayBA, Action::RepairOnewayAB]);
    run_with_actions(&[Action::PartitionOnewayAB, Action::PartitionOnewayBA]);
    run_with_actions(&[
        Action::Partition,
        Action::RepairOnewayAB,
        Action::RepairOnewayBA,
    ]);
}

/// A step of a host whose runtime has its own clock. Returns the times that its software sees
/// just before the step ends.
fn timed_step(sim: &mut Sim, clock: Duration, tick_ms: u64) -> Vec<(Duration, Duration)> {
    let (running, stopped) = sim.begin_step();
    let mut seen = vec![];
    for addr in running {
        sim.enter_host(addr, clock);
        let late = clock.plus(Duration::from_millis(tick_ms - 1));
        seen.push((
            turmoil::world::elapsed(sim.world(), late),
            turmoil::world::sim_elapsed(Some(sim.world()), late).unwrap(),
        ));
        sim.leave_host(addr, None).unwrap();
    }
    sim.end_step(&stopped, true).unwrap();
    seen
}

#[test]
fn elapsed_time_across_restarts() {
    let tick_ms = 5;
    let mut sim = builder().tick_duration(Duration::from_millis(tick_ms)).build();
    sim.host(&name("host"));
    let seen = timed_step(&mut sim, Duration::zero(), tick_ms);
    assert_eq!(seen[0].0, Duration::from_millis(tick_ms - 1));

    // The runtime that takes over has a clock of its own.
    sim.bounce(&name("host"));
    let seen = timed_step(&mut sim, Duration::from_secs(77), tick_ms);
    assert_eq!(seen[0].0, Duration::from_millis((tick_ms * 2) - 1));
}

#[test]
fn elapsed_time_across_crashes() {
    let tick_ms = 5;
    let mut sim = builder().tick_duration(Duration::from_millis(tick_ms)).build();
    sim.host(&name("host1"));

    // Crashing host 1
    sim.crash(&name("host1"));
    assert!(timed_step(&mut sim, Duration::zero(), tick_ms).is_empty());
    // After bouncing host 1, host's clock must be synced.
    sim.bounce(&name("host1"));
    let seen = timed_step(&mut sim, Duration::zero(), tick_ms);
    assert_eq!(
        seen[0].1,
        Duration::from_millis(2 * tick_ms - 1),
        "Host 1 should have caught up"
    );
}

#[test]
fn host_finishes_with_error() {
    let mut sim = builder().build();
    sim.host(&name("host"));
    assert!(step_with(&mut sim, |_, _| Some(TaskEnd::Failed)).is_err());
}

#[test]
fn manual_message_delivery() {
    let mut sim = builder().build();
    sim.host(&name("a"));
    sim.client(&name("b"));
    let listener = on(&mut sim, "a", |w| TcpListener::bind(w, &name("0.0.0.0:1234"))).unwrap();
    sim.hold(&name("a"), &name("b"));
    let asked = connect(&mut sim, "b", "a:1234", 1).unwrap();
    assert!(!step(&mut sim).unwrap());
    assert!(on(&mut sim, "a", |w| listener.poll_accept(w, 0, true)).is_none());

    let mut links = sim.links();
    let mut a_to_b = links.next(sim.world().topology()).unwrap();
    let ends = a_to_b.pair(sim.world().topology());
    assert_eq!(sim.reverse_lookup_pair(ends), (name("a"), name("b")));
    let message = a_to_b.next(sim.world().topology()).unwrap();
    assert_eq!(message.protocol(sim.world().topology()).to_text(), b"TCP SYN");
    a_to_b.deliver_all(sim.world_mut().topology_mut());

    let b = sim.lookup(&name("b"));
    let is_finished = {
        let (running, stopped) = sim.begin_step();
        let mut is_finished = true;
        for addr in running {
            sim.enter_host(addr, Duration::zero());
            let end = if addr == b {
                assert!(matches!(asked.poll(sim.world(), true, false), Poll::Ready(Ok(_))));
                Some(TaskEnd::Finished)
            } else {
                assert!(listener.poll_accept(sim.world_mut(), 0, true).is_some());
                None
            };
            is_finished = sim.leave_host(addr, end).unwrap() && is_finished;
        }
        sim.end_step(&stopped, is_finished).unwrap()
    };
    assert!(is_finished);
}

#[test]
fn run_after_host_crashes() {
    let mut sim = builder().build();
    sim.host(&name("h"));
    sim.crash(&name("h"));
    run(&mut sim, &[]).unwrap();
}

#[test]
fn restart_host_after_crash() {
    let mut sim = builder().build();
    sim.host(&name("h"));
    let mut data = 0;

    // crash and step to execute the err handling logic
    sim.crash(&name("h"));
    step_with(&mut sim, |_, _| {
        data += 1;
        Some(TaskEnd::Finished)
    })
    .unwrap();

    // restart and step to ensure the host software runs
    sim.bounce(&name("h"));
    step_with(&mut sim, |_, _| {
        data += 1;
        Some(TaskEnd::Finished)
    })
    .unwrap();
    // check that software actually runs
    assert_eq!(1, data);
}

/// The number of steps until a datagram arrives.
fn travel(sim: &mut Sim, from: &str, to: &str) -> u32 {
    let mut at = on(sim, to, |w| UdpSocket::bind(w, &(any(), 9))).unwrap();
    let own = on(sim, from, |w| UdpSocket::bind(w, &(any(), 9))).unwrap();
    let dst = SocketAddr::new(sim.lookup(&name(to)), 9);
    on(sim, from, |w| own.send_to(w, &[9], &dst, &vec![calm()])).result.unwrap();
    let mut steps = 0;
    loop {
        step(sim).unwrap();
        steps += 1;
        let mut buf = [0];
        if on(sim, to, |w| at.try_recv_from(w, &mut buf)).is_ok() {
            on(sim, to, |w| at.close(w));
            on(sim, from, |w| own.close(w));
            return steps;
        }
    }
}

#[test]
fn override_link_latency() {
    let (mut sim, _listener) = latency_pair(Duration::from_millis(2));
    assert_eq!(travel(&mut sim, "server", "client"), 2);
    sim.client(&name("client2"));
    let degraded = Duration::from_millis(10);
    sim.set_link_latency(&name("client2"), &name("server"), degraded);
    assert_eq!(travel(&mut sim, "server", "client2"), 10);
    // The other link is as it was.
    assert_eq!(travel(&mut sim, "server", "client"), 2);
}

#[test]
fn is_host_running() {
    let mut sim = builder().build();
    sim.client(&name("client"));
    sim.host(&name("host"));
    assert!(!step(&mut sim).unwrap());
    assert!(sim.is_host_running(&name("client")));
    assert!(sim.is_host_running(&name("host")));
    sim.crash(&name("host"));
    assert!(!sim.is_host_running(&name("host")));
}

#[test]
fn host_scan() {
    let mut sim = builder().build();
    let how_many = 3;
    for i in 0..how_many {
        sim.host(&name(&format!("host-{i}")));
    }
    let mut ips = sim.lookup_many(&Pattern::new(".*").unwrap());
    ips.sort_by_key(|a| a.key());
    assert_eq!(how_many, ips.len());
    for (i, ip) in ips.iter().enumerate() {
        assert_eq!(sim.reverse_lookup(*ip).unwrap(), name(&format!("host-{i}")));
    }
    assert!(sim.reverse_lookup(any()).is_none());
}

#[test]
fn bounce_multiple_hosts_with_regex() {
    let mut sim = builder().build();
    for i in 1..=3 {
        sim.host(&name(&format!("host-{}", i)));
    }
    let mut count = 3;
    step(&mut sim).unwrap();
    let again = sim.bounce(&Pattern::new("host-[12]").unwrap());
    count += again.len();
    step(&mut sim).unwrap();
    assert_eq!(count, 5);
    assert_eq!(again, vec![sim.lookup(&name("host-1")), sim.lookup(&name("host-2"))]);
}

#[test]
fn hold_all() {
    let mut sim = builder().build();
    sim.host(&name("host"));
    sim.client(&name("test"));
    let listener = on(&mut sim, "host", |w| TcpListener::bind(w, &name("0.0.0.0:1234"))).unwrap();
    let all = Pattern::new(".*").unwrap();
    sim.hold(&all, &all);
    let held = connect(&mut sim, "test", "host:1234", 1).unwrap();
    for _ in 0..100 {
        step(&mut sim).unwrap();
        assert!(matches!(held.poll(sim.world(), false, false), Poll::Pending));
    }
    sim.release(&all, &all);
    let asked = connect(&mut sim, "test", "host:1234", 2).unwrap();
    step(&mut sim).unwrap();
    assert!(on(&mut sim, "host", |w| listener.poll_accept(w, 0, true)).is_some());
    assert!(on(&mut sim, "host", |w| listener.poll_accept(w, 0, true)).is_some());
    assert!(matches!(asked.poll(sim.world(), true, false), Poll::Ready(Ok(_))));
}

#[test]
fn patterns_that_do_not_compile() {
    assert!(Pattern::new("(").is_none());
}

#[test]
fn ip_version_v4() {
    let mut sim = builder().build();
    sim.client(&name("client"));
    sim.client(&name("server"));
    assert_eq!(sim.lookup(&name("client")), IpAddr::V4(Ipv4Addr::new(192, 168, 0, 1)));
    assert_eq!(sim.lookup(&name("server")), IpAddr::V4(Ipv4Addr::new(192, 168, 0, 2)));
}

#[test]
fn ip_version_v6() {
    let mut sim = builder().ip_version(IpVersion::V6).build();
    sim.client(&name("client"));
    sim.client(&name("server"));
    assert_eq!(
        sim.lookup(&name("client")),
        IpAddr::V6(Ipv6Addr::new(0xfe80, 0, 0, 0, 0, 0, 0, 1))
    );
    assert_eq!(
        sim.lookup(&name("server")),
        IpAddr::V6(Ipv6Addr::new(0xfe80, 0, 0, 0, 0, 0, 0, 2))
    );
}

#[test]
fn ipv6_lookup() {
    let mut sim = builder().ip_version(IpVersion::V6).build();
    sim.client(&name("client"));
    let expected = turmoil::text::parse_ip(b"fe80::1").unwrap();
    assert_eq!(sim.lookup(&name("client")), expected);
}

#[test]
fn lookup_host() {
    let mut sim = builder().build();
    sim.host(&name("host"));
    sim.client(&name("client"));
    let addrs = turmoil::net::lookup_host(sim.world(), &name("host:1234")).unwrap();
    let expected = SocketAddr::new(sim.lookup(&name("host")), 1234);
    assert_eq!(addrs, [expected]);
    let e = turmoil::net::lookup_host(sim.world(), &name("bogus:1234")).unwrap_err();
    assert_eq!(e.cause, Cause::HostNotFound);
    let e = turmoil::net::lookup_host(sim.world(), &name("port_missing")).unwrap_err();
    assert_eq!(e.cause, Cause::InvalidSocketAddress);
    let e = turmoil::net::lookup_host(sim.world(), &name("host:99999")).unwrap_err();
    assert_eq!(e.cause, Cause::InvalidPort);
}

#[test]
fn hosts_run_in_random_order_but_all() {
    let mut sim = builder().enable_random_order().rng_seed(3).build();
    let mut all = vec![];
    for i in 0..8 {
        all.push(sim.client(&name(&format!("c{i}"))).1);
    }
    let mut orders = vec![];
    for _ in 0..20 {
        let (mut running, stopped) = sim.begin_step();
        assert!(stopped.is_empty());
        orders.push(running.clone());
        running.sort_by_key(|a| a.key());
        assert_eq!(running, all);
    }
    assert!(orders.iter().any(|o| *o != all));
}

#[test]
fn a_fixed_address_is_kept() {
    let mut sim = builder().build();
    let fixed = Ipv4Addr::new(10, 0, 0, 9);
    let (n, addr) = sim.client(&fixed);
    assert_eq!(n, b"10.0.0.9");
    assert_eq!(addr, IpAddr::V4(fixed));
    assert_eq!(fixed.to_ip_addr(sim.world().dns()), Some(addr));
    assert_eq!(sim.world().host_addrs(), vec![addr]);
}

#[test]
fn a_lower_bound_on_the_time_holds() {
    let mut sim = builder().build();
    sim.client(&name("a"));
    sim.client(&name("b"));
    sim.set_max_message_latency(Duration::from_millis(4));
    let late = Fate { fail: false, repair: false, extra: Duration::from_secs(1) };
    let mut at_b = on(&mut sim, "b", |w| UdpSocket::bind(w, &(any(), 9))).unwrap();
    let at_a = on(&mut sim, "a", |w| UdpSocket::bind(w, &(any(), 9))).unwrap();
    on(&mut sim, "a", |w| at_a.send_to(w, &[1], &name("b:9"), &vec![late])).result.unwrap();
    let mut buf = [0];
    for _ in 0..3 {
        step(&mut sim).unwrap();
        assert!(on(&mut sim, "b", |w| at_b.try_recv_from(w, &mut buf)).is_err());
    }
    step(&mut sim).unwrap();
    assert!(on(&mut sim, "b", |w| at_b.try_recv_from(w, &mut buf)).is_ok());
    sim.set_link_max_message_latency(&name("a"), &name("b"), Duration::from_millis(1));
    on(&mut sim, "a", |w| at_a.send_to(w, &[1], &name("b:9"), &vec![late])).result.unwrap();
    step(&mut sim).unwrap();
    assert!(on(&mut sim, "b", |w| at_b.try_recv_from(w, &mut buf)).is_ok());
}

#[test]
fn chance_breaks_and_repairs_links() {
    let mut sim = builder().build();
    sim.client(&name("a"));
    sim.client(&name("b"));
    let mut at_b = on(&mut sim, "b", |w| UdpSocket::bind(w, &(any(), 9))).unwrap();
    let at_a = on(&mut sim, "a", |w| UdpSocket::bind(w, &(any(), 9))).unwrap();
    let breaks = Fate { fail: true, ..calm() };
    let repairs = Fate { repair: true, ..calm() };
    let mut buf = [0];
    let mut arrives = |fate: Fate| {
        on(&mut sim, "a", |w| at_a.send_to(w, &[1], &name("b:9"), &vec![fate])).result.unwrap();
        step(&mut sim).unwrap();
        on(&mut sim, "b", |w| at_b.try_recv_from(w, &mut buf)).is_ok()
    };
    assert!(arrives(calm()));
    assert!(!arrives(breaks));
    assert!(!arrives(calm()));
    assert!(arrives(repairs));
    assert!(arrives(calm()));
}

#[test]
fn time_runs_out() {
    let mut sim = builder().tick_duration(Duration { nanos: u128::MAX }).build();
    let (_, a) = sim.host(&name("a"));
    assert!(sim.can_begin_step());
    assert!(sim.has_time());
    assert!(sim.host_has_time(a));
    assert!(step(&mut sim).unwrap());
    assert!(!sim.can_begin_step());
    assert!(!sim.has_time());
    assert!(!sim.host_has_time(a));
}

#[test]
fn a_host_takes_in_requests_and_datagrams_alone() {
    let mut sim = builder().build();
    let (_, a) = sim.client(&name("a"));
    let (_, b) = sim.client(&name("b"));
    let (src, dst) = (SocketAddr::new(a, 1), SocketAddr::new(b, 2));
    sim.set_max_message_latency(Duration::zero());
    sim.set_link_latency(&name("a"), &name("b"), Duration::zero());
    sim.world_mut().send_message(calm(), src, dst, Protocol::Udp(Datagram::new(b"x"))).unwrap();
    assert!(sim.can_enter_host(b));
    sim.world_mut().send_message(calm(), src, dst, Protocol::Tcp(Segment::Rst)).unwrap();
    assert!(!sim.can_enter_host(b));
    assert!(sim.can_enter_host(a));
}

#[test]
fn simulations_with_one_seed_draw_alike() {
    let draw = |seed| {
        let mut sim = builder().rng_seed(seed).build();
        let rng = sim.rng();
        (rng.random::<u64>(), rng.random::<u64>())
    };
    assert_eq!(draw(7), draw(7));
    assert_ne!(draw(7), draw(8));
}
