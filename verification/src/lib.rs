//! A serverless, LAN-local peer-to-peer messaging engine.
//!
//! Peers discover each other over UDP broadcast, negotiate exactly one
//! bidirectional session per peer pair with a deterministic tie-break, and
//! exchange length-prefixed, compressed frames over TCP sessions.  This crate
//! holds the protocol engine itself: the wire codec, the discovery and
//! tie-break decisions, the per-session role state machine, the incremental
//! frame reader and its acknowledgment logic, and the fan-out sender with
//! peer-drop detection.  All socket work is left to the embedding
//! application, which feeds the engine plain bytes and connection events.

pub mod message;
pub mod network;
pub mod profile;
pub mod utilities;
