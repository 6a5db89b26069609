//! An in-memory key-value cache server core: wire-protocol codec,
//! store, middleware pipeline with write-ahead-log and replication
//! taps, write-ahead-log replay, and the per-connection request
//! processing of the reactor. Every function here carries a contract
//! that Verus checks; the surrounding process (sockets, files,
//! threads, the command line) lives outside this crate and hands in
//! plain values.

pub mod cache;
pub mod cli;
pub mod client;
pub mod proto;
pub mod server;
