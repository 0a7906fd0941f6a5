//! The simulated filesystem of a host.
pub mod cache;
pub mod call_laws;
pub mod config;
pub mod disk;
pub mod entry_laws;
pub mod file;
pub mod laws;
pub mod model;
pub mod open_laws;
pub mod ops;
pub mod path_laws;
pub mod state;
pub mod std_fs;
pub mod tokio_fs;
pub mod tree;
pub mod write_laws;
