//! Playback synchronization engine.
//!
//! One player instance (the master) publishes its authoritative playback
//! state; follower instances periodically fetch that state together with a
//! measured clock offset and reconcile their local player against it.  The
//! decision logic of each reconciliation tick, the drift smoothing that
//! avoids audible micro-seeks, the derivation of the published status, and
//! the wire encoding of that status are all verified here.  Network and
//! player I/O live outside the library and hand in plain values.

pub mod engine;
pub mod status;
pub mod wire;
