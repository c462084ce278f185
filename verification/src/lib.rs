//! Peer-to-peer file transfer over a mix network: the message formats, the
//! cryptography and the two protocol state machines.
//!
//! Apart from the random numbers it draws, everything in this crate computes on
//! values it is handed. Reading files, talking to the network and asking the
//! user happen elsewhere.

pub mod code;
pub mod crypto;
pub mod draws;
pub mod envelope;
pub mod error;
pub mod file;
pub mod inbox;
pub mod laws;
pub mod path;
pub mod protocol;
pub mod receive;
pub mod send;
pub mod wasm;
pub mod wire;
pub mod words;
