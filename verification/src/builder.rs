//! Settings for a simulation that is to be built.
use crate::config::{Config, Latency};
use crate::host::PortRange;
use crate::ip::IpVersion;
use crate::sim::{Sim, SimView};
use crate::time::Duration;
use vstd::prelude::*;

verus! {

/// Settings for a simulation that is to be built.
#[derive(Clone, Copy, Debug, PartialEq, Eq, Structural)]
pub struct Builder {
    /// Settings of the simulation.
    pub config: Config,
    /// The kind of network.
    pub ip_version: IpVersion,
    /// How long messages travel.
    pub latency: Latency,
    /// The seed of the random numbers, where there is one.
    pub rng_seed: Option<u64>,
}

impl Builder {
    /// The settings by default. The simulation starts at the given time after the epoch.
    pub fn new(now: Duration) -> (r: Self)
        ensures
            r.config.duration.nanos == 10_000_000_000,
            r.config.tick.nanos == 1_000_000,
            r.config.epoch == now,
            r.config.ephemeral_ports == (PortRange { first: 49152, last: 65535 }),
            r.config.tcp_capacity == 64,
            r.config.udp_capacity == 64,
            !r.config.enable_tokio_io,
            !r.config.random_node_order,
            r.ip_version == IpVersion::V4,
            r.latency.min_message_latency.nanos == 0,
            r.latency.max_message_latency.nanos == 100_000_000,
            r.rng_seed is None,
    {
        Builder {
            config: Config::new(now),
            ip_version: IpVersion::default(),
            latency: Latency::default(),
            rng_seed: None,
        }
    }

    /// Sets the time from the epoch to the start of the simulation.
    pub fn epoch(&mut self, value: Duration) -> (r: &mut Self)
        ensures
            *r == (Builder { config: Config { epoch: value, ..old(self).config }, ..*old(self) }),
            *final(self) == *final(r),
    {
        self.config.epoch = value;
        self
    }

    /// Sets how long the simulation may run.
    pub fn simulation_duration(&mut self, value: Duration) -> (r: &mut Self)
        ensures
            *r == (Builder {
                config: Config { duration: value, ..old(self).config },
                ..*old(self)
            }),
            *final(self) == *final(r),
    {
        self.config.duration = value;
        self
    }

    /// Sets how much time each step takes.
    pub fn tick_duration(&mut self, value: Duration) -> (r: &mut Self)
        ensures
            *r == (Builder { config: Config { tick: value, ..old(self).config }, ..*old(self) }),
            *final(self) == *final(r),
    {
        self.config.tick = value;
        self
    }

    /// Sets the kind of network.
    pub fn ip_version(&mut self, value: IpVersion) -> (r: &mut Self)
        ensures
            *r == (Builder { ip_version: value, ..*old(self) }),
            *final(self) == *final(r),
    {
        self.ip_version = value;
        self
    }

    /// Sets how long messages travel at least.
    pub fn min_message_latency(&mut self, value: Duration) -> (r: &mut Self)
        ensures
            *r == (Builder {
                latency: Latency { min_message_latency: value, ..old(self).latency },
                ..*old(self)
            }),
            *final(self) == *final(r),
    {
        self.latency.min_message_latency = value;
        self
    }

    /// Sets how long messages travel at most.
    pub fn max_message_latency(&mut self, value: Duration) -> (r: &mut Self)
        ensures
            *r == (Builder {
                latency: Latency { max_message_latency: value, ..old(self).latency },
                ..*old(self)
            }),
            *final(self) == *final(r),
    {
        self.latency.max_message_latency = value;
        self
    }

    /// Sets the ports that hosts hand out.
    pub fn ephemeral_ports(&mut self, value: PortRange) -> (r: &mut Self)
        ensures
            *r == (Builder {
                config: Config { ephemeral_ports: value, ..old(self).config },
                ..*old(self)
            }),
            *final(self) == *final(r),
    {
        self.config.ephemeral_ports = value;
        self
    }

    /// Sets how many requests wait at a socket that listens.
    pub fn tcp_capacity(&mut self, value: usize) -> (r: &mut Self)
        ensures
            *r == (Builder {
                config: Config { tcp_capacity: value, ..old(self).config },
                ..*old(self)
            }),
            *final(self) == *final(r),
    {
        self.config.tcp_capacity = value;
        self
    }

    /// Sets how many datagrams wait at a socket.
    pub fn udp_capacity(&mut self, value: usize) -> (r: &mut Self)
        ensures
            *r == (Builder {
                config: Config { udp_capacity: value, ..old(self).config },
                ..*old(self)
            }),
            *final(self) == *final(r),
    {
        self.config.udp_capacity = value;
        self
    }

    /// Lets hosts use input and output of the operating system.
    pub fn enable_tokio_io(&mut self) -> (r: &mut Self)
        ensures
            *r == (Builder {
                config: Config { enable_tokio_io: true, ..old(self).config },
                ..*old(self)
            }),
            *final(self) == *final(r),
    {
        self.config.enable_tokio_io = true;
        self
    }

    /// Has the hosts run in random order.
    pub fn enable_random_order(&mut self) -> (r: &mut Self)
        ensures
            *r == (Builder {
                config: Config { random_node_order: true, ..old(self).config },
                ..*old(self)
            }),
            *final(self) == *final(r),
    {
        self.config.random_node_order = true;
        self
    }

    /// Sets the seed of the random numbers.
    pub fn rng_seed(&mut self, value: u64) -> (r: &mut Self)
        ensures
            *r == (Builder { rng_seed: Some(value), ..*old(self) }),
            *final(self) == *final(r),
    {
        self.rng_seed = Some(value);
        self
    }

    /// Whether the longest time that messages travel is no shorter than the shortest.
    pub open spec fn is_valid(self) -> bool {
        self.latency.min_message_latency.nanos <= self.latency.max_message_latency.nanos
    }

    /// Builds a simulation with the settings.
    pub fn build(&self) -> (r: Sim)
        requires
            self.is_valid(),
        ensures
            r.wf(),
            r@ == SimView::fresh(self.config, self.latency, self.ip_version),
    {
        Sim::new(self.config, self.latency, self.ip_version, self.rng_seed)
    }
}

} // verus!
