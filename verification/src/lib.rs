//! A verified binary wire-protocol codec and connection-framing layer for a
//! length-prefixed, state-dependent packet stream.
//!
//! The crate is organised leaves first: byte cursors and sinks, the codec
//! capability traits, primitive and variable-length integer codecs, strings,
//! array and document codecs, the packet envelope with its per-state
//! dispatch, and the streaming read and write queues a connection is built
//! from.
pub mod packet;

pub mod bytes;
pub mod numbers;
pub mod position;
pub mod strings;
pub mod varnum;

pub mod packet_json;
pub mod packet_nbt;
pub mod packet_types;
pub mod types;

pub mod packet_default;

pub mod read;
pub mod write;
