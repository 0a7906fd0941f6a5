//! Laws that relate several operations, stated over the views of what they work on.
pub mod actions;
pub mod barriers;
pub mod calls;
pub mod connections;
pub mod links;
pub mod names;
pub mod simulation;
pub mod sockets;
pub mod texts;
