//! Wire-level codec for KRPC messages, the RPC format of the BitTorrent
//! mainline DHT (BEP 0005).
//!
//! The codec converts between structured in-memory messages (queries,
//! responses and errors, together with the sender's identity) and a generic
//! self-describing value tree of dictionaries, lists, byte strings and
//! integers, the form that a byte-stream serializer turns into datagrams.
//! It covers the 160-bit node-identifier packing, the 26-byte compact
//! node-info packing, and the strict validation of untrusted inbound values.

pub mod error;
pub mod identifier;
pub mod node;
pub mod package;
pub mod text;
pub mod value;
