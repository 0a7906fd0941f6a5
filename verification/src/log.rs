//! What is written to the log of a simulation.
use crate::addr::SocketAddr;
use crate::dns::{Dns, DnsView};
use crate::inbox::Dot;
use crate::message::Message;
use crate::time::Duration;
use vstd::prelude::*;
use vstd::slice::slice_to_vec;

verus! {

/// A host by its name, and how far it is.
pub struct NamedDot {
    /// The name.
    pub host: Vec<u8>,
    /// How far it is.
    pub version: u64,
}

/// What happened.
pub enum Kind {
    /// The host received a message.
    Recv {
        /// Who sent it.
        src: NamedDot,
    },
    /// The host sent a message.
    Send {
        /// The name of the host that it goes to.
        dst: Vec<u8>,
        /// How long it travels.
        delay: Option<Duration>,
        /// Whether it is dropped.
        dropped: bool,
    },
    /// The host wrote a line.
    Log {
        /// How important it is.
        level: usize,
        /// The line.
        line: Vec<u8>,
    },
}

/// An entry of the log.
pub struct Event {
    /// The host.
    pub host: NamedDot,
    /// How long the host had been running.
    pub elapsed: Duration,
    /// What happened.
    pub kind: Kind,
    /// The message that it is about, as it stands in the log.
    pub message: Option<Vec<u8>>,
}

/// Whether the host has a name.
pub open spec fn is_named(dns: DnsView, a: SocketAddr) -> bool {
    dns.first_named(a.ip, 0) < dns.names.order.len()
}

/// The name of the host.
pub open spec fn name_of(dns: DnsView, a: SocketAddr) -> Seq<u8> {
    dns.names.order[dns.first_named(a.ip, 0)]
}

/// Whether the named host is the one that is meant.
pub open spec fn names(dns: DnsView, named: NamedDot, dot: Dot) -> bool {
    named.host@ == name_of(dns, dot.host) && named.version == dot.version
}

/// The log of a simulation.
#[derive(Clone, Copy, Debug, PartialEq, Eq, Structural)]
pub struct Log {
    /// Whether anything is written.
    pub is_enabled: bool,
}

fn name(dns: &Dns, a: SocketAddr) -> (r: Vec<u8>)
    requires
        dns.wf(),
        is_named(dns@, a),
    ensures
        r@ == name_of(dns@, a),
{
    dns.reverse(a.ip).unwrap()
}

fn named(dns: &Dns, dot: Dot) -> (r: NamedDot)
    requires
        dns.wf(),
        is_named(dns@, dot.host),
    ensures
        names(dns@, r, dot),
{
    NamedDot { host: name(dns, dot.host), version: dot.version }
}

impl Log {
    /// A log that is written.
    pub fn new() -> (r: Log)
        ensures
            r.is_enabled,
    {
        Log { is_enabled: true }
    }

    /// No log.
    pub fn none() -> (r: Log)
        ensures
            !r.is_enabled,
    {
        Log { is_enabled: false }
    }

    /// Whether anything is written.
    pub fn enabled(&self) -> (r: bool)
        ensures
            r == self.is_enabled,
    {
        self.is_enabled
    }

    /// The entry for a line that a host wrote.
    pub fn line(&self, dns: &Dns, host: Dot, elapsed: Duration, debug: bool, line: &[u8]) -> (r:
        Option<Event>)
        requires
            dns.wf(),
            self.is_enabled ==> is_named(dns@, host.host),
        ensures
            r is Some == self.is_enabled,
            r matches Some(e) ==> {
                &&& names(dns@, e.host, host)
                &&& e.elapsed == elapsed
                &&& e.message is None
                &&& e.kind matches Kind::Log { level, line: l } && level == (if debug {
                    0usize
                } else {
                    1usize
                }) && l@ == line@
            },
    {
        if !self.is_enabled {
            return None;
        }
        let level: usize = if debug {
            0
        } else {
            1
        };
        Some(
            Event {
                host: named(dns, host),
                elapsed,
                kind: Kind::Log { level, line: slice_to_vec(line) },
                message: None,
            },
        )
    }

    /// The entry for a message that a host received.
    pub fn recv<M: Message>(&self, dns: &Dns, host: Dot, elapsed: Duration, src: Dot, message: &M) -> (r:
        Option<Event>)
        requires
            dns.wf(),
            self.is_enabled ==> is_named(dns@, host.host) && is_named(dns@, src.host),
        ensures
            r is Some == self.is_enabled,
            r matches Some(e) ==> {
                &&& names(dns@, e.host, host)
                &&& e.elapsed == elapsed
                &&& e.kind matches Kind::Recv { src: s } && names(dns@, s, src)
                &&& e.message matches Some(m) && m@ == message.json()
            },
    {
        if !self.is_enabled {
            return None;
        }
        let mut text: Vec<u8> = Vec::new();
        message.write_json(&mut text);
        assert(text@ =~= message.json());
        Some(
            Event {
                host: named(dns, host),
                elapsed,
                kind: Kind::Recv { src: named(dns, src) },
                message: Some(text),
            },
        )
    }

    /// The entry for a message that a host sent.
    pub fn send<M: Message>(
        &self,
        dns: &Dns,
        host: Dot,
        elapsed: Duration,
        dst: SocketAddr,
        delay: Option<Duration>,
        dropped: bool,
        message: &M,
    ) -> (r: Option<Event>)
        requires
            dns.wf(),
            self.is_enabled ==> is_named(dns@, host.host) && is_named(dns@, dst),
        ensures
            r is Some == self.is_enabled,
            r matches Some(e) ==> {
                &&& names(dns@, e.host, host)
                &&& e.elapsed == elapsed
                &&& e.kind matches Kind::Send { dst: d, delay: l, dropped: x } && d@ == name_of(
                    dns@,
                    dst,
                ) && l == delay && x == dropped
                &&& e.message matches Some(m) && m@ == message.json()
            },
    {
        if !self.is_enabled {
            return None;
        }
        let mut text: Vec<u8> = Vec::new();
        message.write_json(&mut text);
        assert(text@ =~= message.json());
        Some(
            Event {
                host: named(dns, host),
                elapsed,
                kind: Kind::Send { dst: name(dns, dst), delay, dropped },
                message: Some(text),
            },
        )
    }
}

} // verus!
