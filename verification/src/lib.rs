//! Building blocks of an SCTP association: the queues that hold its DATA chunks
//! and the rules by which it answers its peer.

pub mod association;
pub mod chunk;
pub mod config;
pub mod error;
pub mod fx_map;
pub mod octets;
pub mod packet;
pub mod queue;
pub mod serial;
pub mod text;
