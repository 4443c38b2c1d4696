//! An in-memory key-value store that speaks a subset of the RESP wire
//! protocol: PING, ECHO, GET and SET with an optional time-to-live.
//!
//! The crate holds the protocol codec, the command mapper, the time-aware
//! store and the per-connection state machine. Sockets, threads and locks
//! belong to the program that embeds it.

pub mod decimal;
pub mod text;
pub mod command;
pub mod clock;
pub mod persist;
pub mod resp;
pub mod response;
pub mod service;
pub mod connection;
