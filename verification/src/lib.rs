//! A single-process, line-oriented chat server core.
//!
//! The library holds the verified heart of the server: per-connection
//! byte buffering and line framing, the `/`-command parser, the user and
//! room registries with their invariants, and the fan-out bookkeeping.
//! The sockets and the readiness loop live outside; they hand the library
//! plain byte events and carry its queued buffers back to the kernel.

pub mod app;
pub mod clock;
pub mod command;
pub mod connection;
pub mod framing;
pub mod message;
pub mod room;
pub mod server;
pub mod user;
