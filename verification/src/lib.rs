//! The ordering core of a totally ordered multicast node: the packet wire
//! format and the state machine that assigns every message a final place in
//! one delivery order shared by all nodes.
pub mod messages;
pub mod queue;
pub mod server;
