//! A broadcast relay core: a framing codec that segments a byte stream into
//! typed messages, a registry of live peer connections with snapshot-based
//! fan-out, and the per-connection session and client decision logic.
//!
//! All I/O (sockets, stdin, the filesystem) lives outside this crate; the
//! functions here work on plain byte vectors and connection identities.

pub mod client;
pub mod codec;
pub mod registry;
pub mod session;
