//! Room-state storage and compression: short identifiers, compressed state
//! events, layered state snapshots and the per-room state service.
//!
//! Every keyspace is an ordered map from byte strings to byte strings, laid
//! out as it is kept on disk; the engine works on the keyspaces in memory.

pub mod bytes;
pub mod content;
pub mod digest;
pub mod directory;
pub mod error;
pub mod globals;
pub mod ident;
pub mod laws;
pub mod pdu;
pub mod short;
pub mod state;
pub mod state_compressor;
pub mod state_diff;
pub mod state_set;
pub mod tree;
pub mod users;

pub use directory::Data;
pub use error::{Error, Result};
pub use pdu::PduEvent;
pub use state::Service;
pub use state_compressor::CompressedStateEvent;
pub use users::Users;
