//! A small peer-to-peer cluster membership and message-distribution library.
//!
//! Each node keeps a table of peers, probes their liveness, converges on a
//! shared fingerprint of the membership, and lets the application broadcast
//! opaque payloads to every other node.

pub mod codec;
pub mod helper;
pub mod order;
pub mod pool;
pub mod prober;
pub mod roundtrip;
pub mod structs;
pub mod sys;
pub mod table;
pub mod wire;
