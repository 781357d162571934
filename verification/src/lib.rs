//! A filesystem-change monitor library: the state machine of a child
//! process that a two-way file synchronizer spawns to track which paths
//! changed under each registered replica, spoken to over a line-oriented
//! text protocol.
//!
//! The library holds the verified core: the percent codec and line
//! framing, the path model, the replica registry with its watched-path and
//! pending-change sets, the link map, and the event dispatcher. Reading
//! stdin, writing stdout and the platform notification backend live
//! outside, behind the [`monitor::Watch`] capability and plain byte
//! values: an input line arrives as bytes, responses accumulate as lines
//! of bytes for the caller to write.

pub mod bytes;
pub mod codec;
pub mod laws;
pub mod monitor;
pub mod path;
pub mod replica;
