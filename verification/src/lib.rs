//! Authoritative server core for a deterministic, lockstep-synchronized
//! multiplayer game engine: per-client state machines with strictly monotonic
//! input queues, frame-update assembly in a canonical order, the wire codec,
//! and a guest-module host that owns every handle it is given.

pub mod basic;
pub mod driver;
pub mod game;
pub mod guest;
pub mod host;
pub mod laws;
pub mod network;
pub mod ordered;
pub mod package;
pub mod protocol;
pub mod resources;
pub mod server;
pub mod vm;
