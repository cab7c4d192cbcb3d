//! Client side of a node-to-node blockchain transport: length-prefixed
//! framing over a byte stream, a multiplex of light connections, a
//! request/response command layer, the tagged binary encoding of its
//! records, and a content-addressed block store with packs and fanout
//! indexes.

pub mod block;
pub mod cbor;
pub mod endian;
pub mod error;
pub mod ntt;
pub mod packet;
pub mod proto;
pub mod storage;
