//! Session/event core of a real-time relay server.
//!
//! Many clients connect, pick a shared world by presenting a numeric seed,
//! and exchange compact binary transform updates with every other client in
//! the same world.  This crate holds the verified core: the binary wire
//! codec, the world/roster registry with its broadcast fan-out, and the
//! event-processing state machine that is the sole mutator of all session
//! state.  The network transport drives the state machine from outside: it
//! hands in one event at a time and performs the transmissions that the core
//! returns as addressed envelopes.

use vstd::prelude::*;

pub mod action;
pub mod table;
pub mod server;
pub mod user;
pub mod world;

verus! {

/// World identifier: a client-chosen 32-bit value presented at login.
/// Clients that present the same seed land in the same world.
pub type Seed = u32;

/// Externally assigned identifier of one connection, unique and stable for
/// that connection's lifetime.  The core never chooses these itself.
pub type ConnectionID = u32;

} // verus!
