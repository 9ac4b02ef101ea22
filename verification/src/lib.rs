//! Core library for a multiplayer text-adventure ("MUD") session server.
//!
//! The library holds the parts of the server that decide and compute: the
//! wire codec for the protocol messages, the room graph and its validation,
//! the credential registry, the world actor's state transitions, and the
//! per-connection session state machine.  Network and file I/O, scheduling
//! and process bootstrap live outside, in thin adapters that call into this
//! library with plain values.

pub mod codec;
pub mod frame;
pub mod login;
pub mod occupancy;
pub mod proto;
pub mod rooms;
pub mod session;
pub mod text;
pub mod world;
