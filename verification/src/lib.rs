//! A simulated network and filesystem for testing distributed systems.
pub mod addr;
pub mod barriers;
pub mod builder;
pub mod collections;
pub mod config;
pub mod connection;
pub mod dns;
pub mod envelope;
pub mod error;
pub mod fs;
pub mod host;
pub mod inbox;
pub mod ip;
pub mod kernel;
pub mod laws;
pub mod log;
pub mod message;
pub mod net;
pub mod node;
pub mod ordered;
pub mod partition_logger;
pub mod path;
pub mod pattern;
pub mod random;
pub mod rt;
pub mod sim;
pub mod text;
pub mod time;
pub mod top;
pub mod workload;
pub mod world;
