//! Settings of a simulation.
use crate::host::{PortRange, FIRST_EPHEMERAL_PORT, LAST_EPHEMERAL_PORT};
use crate::time::Duration;
use vstd::prelude::*;

verus! {

/// Settings of a simulation.
#[derive(Clone, Copy, Debug, PartialEq, Eq, Structural)]
pub struct Config {
    /// How long the simulation may run.
    pub duration: Duration,
    /// How much time each step takes.
    pub tick: Duration,
    /// The time from the epoch to the start of the simulation.
    pub epoch: Duration,
    /// The ports that hosts hand out.
    pub ephemeral_ports: PortRange,
    /// How many requests wait at a socket that listens.
    pub tcp_capacity: usize,
    /// How many datagrams wait at a socket.
    pub udp_capacity: usize,
    /// Whether the hosts may use input and output of the operating system.
    pub enable_tokio_io: bool,
    /// Whether the hosts run in random order.
    pub random_node_order: bool,
}

impl Config {
    /// The settings by default: ten seconds in steps of a millisecond, the ports from 49152
    /// on, and room for 64 messages. The epoch is the time at which they are made.
    pub fn new(epoch: Duration) -> (r: Config)
        ensures
            r.duration.nanos == 10_000_000_000,
            r.tick.nanos == 1_000_000,
            r.epoch == epoch,
            r.ephemeral_ports == (PortRange {
                first: FIRST_EPHEMERAL_PORT,
                last: LAST_EPHEMERAL_PORT,
            }),
            r.tcp_capacity == 64,
            r.udp_capacity == 64,
            !r.enable_tokio_io,
            !r.random_node_order,
    {
        Config {
            duration: Duration::from_secs(10),
            tick: Duration::from_millis(1),
            epoch,
            ephemeral_ports: PortRange { first: FIRST_EPHEMERAL_PORT, last: LAST_EPHEMERAL_PORT },
            tcp_capacity: 64,
            udp_capacity: 64,
            enable_tokio_io: false,
            random_node_order: false,
        }
    }
}

/// How long messages travel.
#[derive(Clone, Copy, Debug, PartialEq, Eq, Structural)]
pub struct Latency {
    /// The shortest time.
    pub min_message_latency: Duration,
    /// The longest time.
    pub max_message_latency: Duration,
}

impl Latency {
    /// How long a message travels that takes so much longer than the shortest time.
    pub open spec fn delay(self, extra: Duration) -> int {
        if self.min_message_latency.nanos + extra.nanos <= self.max_message_latency.nanos {
            self.min_message_latency.nanos + extra.nanos
        } else {
            self.max_message_latency.nanos as int
        }
    }
}

impl Default for Latency {
    /// Up to a tenth of a second.
    fn default() -> (r: Latency)
        ensures
            r.min_message_latency.nanos == 0,
            r.max_message_latency.nanos == 100_000_000,
    {
        Latency {
            min_message_latency: Duration::from_millis(0),
            max_message_latency: Duration::from_millis(100),
        }
    }
}

} // verus!
