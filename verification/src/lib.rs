//! A best-effort file-transfer protocol core: the packet and sequence model,
//! the wire frame codec, packetization of a file's bytes, and reassembly of
//! received packets into complete sequences.

pub mod arrival;
pub mod cli;
pub mod client;
pub mod packet;
pub mod reassembly;
pub mod sequence;
pub mod server;
pub mod wire;
