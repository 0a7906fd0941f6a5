//! Connections, inboxes, logs and workloads.
use turmoil::addr::{IpAddr, Ipv4Addr, SocketAddr};
use turmoil::connection::{
    connect_result, transfer_result, ConnectionInfo, ConnectionState, Event, Inner, Outgoing,
    Routed, Segment, Step,
};
use turmoil::error::ErrorKind;
use turmoil::inbox::{Dot, Envelope, Inbox};
use turmoil::partition_logger::PartitionLogger;
use turmoil::time::Duration;
use turmoil::workload::Phase;

fn ip(last: u8) -> IpAddr {
    IpAddr::V4(Ipv4Addr::new(10, 0, 0, last))
}

fn at(last: u8) -> SocketAddr {
    SocketAddr::new(ip(last), 1)
}

#[derive(Clone, Debug, PartialEq)]
enum Message {
    Ping { how_many: u16 },
    Pong,
}

fn sent(step: Step<Message>) -> Outgoing<Message> {
    match step {
        Step::Send(out) => out,
        _ => panic!("nothing to send"),
    }
}

fn routed(step: Step<Message>) -> Routed<Message> {
    match step {
        Step::Route(r) => r,
        _ => panic!("nothing came in"),
    }
}

/// Connects the client at its address to the server. Returns what each calls the connection.
fn establish(client: &mut Inner, here: SocketAddr, server: &mut Inner, there: SocketAddr, idx: usize) -> (ConnectionInfo, ConnectionInfo) {
    let syn = sent(client.step(Event::Connect(there, idx)));
    assert_eq!(syn.dst, there);
    let offer = match routed(server.step(Event::Receive(here, syn.segment))) {
        Routed::Offer(info) => info,
        _ => panic!("no offer"),
    };
    assert_eq!(offer.peer, here);
    assert!(matches!(server.connections.state(offer), Some(ConnectionState::Queued)));
    let ack = sent(server.step(Event::Accept(offer, idx)));
    assert_eq!(ack.dst, here);
    let info = match routed(client.step(Event::Receive(there, ack.segment))) {
        Routed::Established(info) => info,
        _ => panic!("not established"),
    };
    assert_eq!(info.peer, there);
    (info, offer)
}

fn pass(from: &mut Inner, here: SocketAddr, to: &mut Inner, info: ConnectionInfo, m: Message) -> Message {
    let out = sent(from.step(Event::Send(info, m)));
    match routed(to.step(Event::Receive(here, out.segment))) {
        Routed::Deliver(_, m) => m,
        _ => panic!("not delivered"),
    }
}

fn exchange(client: &mut Inner, here: SocketAddr, server: &mut Inner, there: SocketAddr, ends: (ConnectionInfo, ConnectionInfo), how_many: u16) {
    let ping = pass(client, here, server, ends.0, Message::Ping { how_many });
    assert_eq!(ping, Message::Ping { how_many });
    for _ in 0..how_many {
        let m = pass(server, there, client, ends.1, Message::Pong);
        assert!(matches!(m, Message::Pong));
    }
}

#[test]
fn connections_n_responses() {
    let (mut client, mut server) = (Inner::new(), Inner::new());
    let ends = establish(&mut client, at(1), &mut server, at(2), 0);
    exchange(&mut client, at(1), &mut server, at(2), ends, 3);
}

#[test]
fn connections_server_concurrency() {
    let mut server = Inner::new();
    let how_many = 3;
    let mut clients = vec![];
    for i in 0..how_many {
        let mut client = Inner::new();
        let here = at(10 + i as u8);
        let ends = establish(&mut client, here, &mut server, at(2), i as usize);
        clients.push((client, here, ends));
    }
    for (client, here, ends) in &mut clients {
        exchange(client, *here, &mut server, at(2), *ends, how_many);
    }
}

/// The one side gives the connection up. Returns the index at which the other closes it.
fn hang_up(one: &mut Inner, here: SocketAddr, other: &mut Inner, idx: usize) -> Option<usize> {
    let rst = sent(one.step(Event::Drop(idx)));
    match routed(other.step(Event::Receive(here, rst.segment))) {
        Routed::Close(i) => i,
        _ => panic!("not closed"),
    }
}

fn assert_gone(inner: &Inner, info: ConnectionInfo) {
    assert!(inner.connections.state(info).is_none());
    assert_eq!(transfer_result(false).unwrap_err().kind, ErrorKind::ConnectionReset);
}

#[test]
fn client_hangup() {
    let (mut bob, mut sally) = (Inner::new(), Inner::new());
    let (_, at_bob) = establish(&mut sally, at(1), &mut bob, at(2), 4);
    assert_eq!(hang_up(&mut sally, at(1), &mut bob, 4), Some(4));
    assert_gone(&bob, at_bob);
}

#[test]
fn server_hangup() {
    let (mut client, mut server) = (Inner::new(), Inner::new());
    let (at_client, _) = establish(&mut client, at(1), &mut server, at(2), 4);
    assert_eq!(hang_up(&mut server, at(2), &mut client, 4), Some(4));
    assert_gone(&client, at_client);
    // A connection that is gone is given up without a word.
    assert!(matches!(client.step(Event::<Message>::Drop(4)), Step::Idle));
}

#[test]
fn drop_io() {
    let how_many = 3;
    let (mut client, mut server) = (Inner::new(), Inner::new());
    let mut conns = vec![];
    for i in 0..how_many {
        conns.push(establish(&mut client, at(1), &mut server, at(2), i).0);
    }
    let all: Vec<Outgoing<Message>> = server.rst_all();
    assert_eq!(all.len(), how_many);
    for out in all {
        assert_eq!(out.dst, at(1));
        assert!(matches!(out.segment, Segment::Rst(_)));
        client.step(Event::Receive(at(2), out.segment));
    }
    for info in conns {
        assert_gone(&client, info);
    }
}

#[test]
fn results_of_connections() {
    assert!(transfer_result(true).is_ok());
    assert!(connect_result(true).is_ok());
    assert_eq!(connect_result(false).unwrap_err().kind, ErrorKind::ConnectionRefused);
}

fn envelope(from: u8, millis: u64, message: u8) -> Envelope<u8> {
    Envelope {
        src: Dot { host: at(from), version: 0 },
        deliver_at: Duration::from_millis(millis),
        message,
    }
}

#[test]
fn an_inbox_keeps_the_order_of_each_sender() {
    let mut inbox: Inbox<u8> = Inbox::new();
    let now = Duration::from_millis;
    inbox.send(envelope(1, 5, 11));
    inbox.send(envelope(2, 3, 21));
    inbox.send(envelope(1, 5, 12));
    // Nothing is early.
    assert!(!inbox.tick(now(2)));
    assert!(inbox.recv(now(2)).is_none());
    assert!(inbox.tick(now(3)));
    assert!(inbox.recv_from(at(1), now(3)).is_none());
    assert_eq!(inbox.recv(now(3)).unwrap().message, 21);
    assert_eq!(inbox.recv_from(at(1), now(9)).unwrap().message, 11);
    assert_eq!(inbox.recv(now(9)).unwrap().message, 12);
    assert!(!inbox.tick(now(9)));
}

#[test]
fn long_partitions_are_reported() {
    let mut logger = PartitionLogger::new(Duration::from_secs(1));
    let secs = Duration::from_secs;
    assert!(logger.log_partition(ip(1), ip(2), secs(1)));
    assert!(logger.check_slow_connections(Duration::from_millis(1999)).is_empty());
    assert_eq!(logger.check_slow_connections(secs(2)).len(), 1);
    let slow = logger.check_slow_connections(secs(4));
    assert_eq!(slow.len(), 1);
    assert_eq!(slow[0].1, secs(3));
    // It does not matter in which order the hosts are named.
    let report = logger.log_repair(ip(2), ip(1), secs(5)).unwrap();
    assert_eq!(report.duration, secs(4));
    assert!(report.slow);
    assert!(logger.log_repair(ip(1), ip(2), secs(6)).is_none());
    assert!(logger.check_slow_connections(secs(9)).is_empty());
}

#[test]
fn workloads_have_three_phases() {
    let mut phase = Phase::Setup;
    let mut seen = vec![];
    while phase != Phase::Done {
        seen.push(phase);
        phase = phase.next();
    }
    assert_eq!(seen, [Phase::Setup, Phase::Run, Phase::Verify]);
    assert_eq!(phase.next(), Phase::Done);
}

struct Note(u8);

impl turmoil::message::Message for Note {
    fn write_json(&self, dst: &mut Vec<u8>) {
        dst.push(b'0' + self.0);
    }
}

#[test]
fn a_log_names_hosts() {
    let mut dns = turmoil::dns::Dns::new(
        turmoil::ip::IpVersion::V4.iter(),
        turmoil::ip::IpSubnets::new(),
    );
    let (_, a) = dns.register_legacy(&b"a".to_vec());
    let (_, b) = dns.register_legacy(&b"b".to_vec());
    let dot = |ip, version| Dot { host: SocketAddr::new(ip, 1), version };
    let log = turmoil::log::Log::new();
    assert!(log.enabled());
    let now = Duration::from_secs(3);
    let e = log.recv(&dns, dot(a, 4), now, dot(b, 5), &Note(7)).unwrap();
    assert_eq!(e.host.host, b"a");
    assert_eq!(e.host.version, 4);
    assert_eq!(e.elapsed, now);
    assert_eq!(e.message.unwrap(), b"7");
    match e.kind {
        turmoil::log::Kind::Recv { src } => {
            assert_eq!(src.host, b"b");
            assert_eq!(src.version, 5);
        }
        _ => panic!("not received"),
    }
    let to = SocketAddr::new(b, 1);
    let e = log.send(&dns, dot(a, 4), now, to, Some(now), true, &Note(1)).unwrap();
    match e.kind {
        turmoil::log::Kind::Send { dst, delay, dropped } => {
            assert_eq!(dst, b"b");
            assert_eq!(delay, Some(now));
            assert!(dropped);
        }
        _ => panic!("not sent"),
    }
    let e = log.line(&dns, dot(a, 4), now, true, b"hi").unwrap();
    assert!(matches!(e.kind, turmoil::log::Kind::Log { level: 0, line } if line == b"hi"));
    let none = turmoil::log::Log::none();
    assert!(none.line(&dns, dot(a, 4), now, true, b"hi").is_none());
}

struct Echo(u8);

impl turmoil::workload::Workload for Echo {
    fn name(&self) -> Vec<u8> {
        vec![b'e', b'0' + self.0]
    }
}

struct EchoFactory(u8);

impl turmoil::workload::WorkloadFactory for EchoFactory {
    type Obj = Echo;

    fn build(&self) -> Echo {
        Echo(self.0)
    }
}

#[test]
fn workloads_are_made_in_order() {
    let mut all = turmoil::workload::CompoundWorkload::new();
    all.add_workload(EchoFactory(1));
    all.add_workload(EchoFactory(2));
    let made = all.apply();
    assert_eq!(made.len(), 2);
    assert_eq!(made[0].0, b"e1");
    assert_eq!(made[1].0, b"e2");
    assert_eq!(made[1].1 .0, 2);
}

#[test]
fn connections_are_written_to_the_log() {
    let json = |s: Segment<Note>| {
        let mut out = vec![];
        turmoil::message::Message::write_json(&s, &mut out);
        out
    };
    assert_eq!(json(Segment::Syn(1)), b"Syn");
    assert_eq!(json(Segment::SynAck(1)), b"SynAck");
    assert_eq!(json(Segment::Rst(1)), b"Rst");
    assert_eq!(json(Segment::Data(1, Note(5))), b"5");
}
