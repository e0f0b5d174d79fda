//! Verified core of a Filecoin node: message-pool decisions, token amounts,
//! and the wire format of state roots.

pub mod amount;
pub mod cbor;
pub mod content_id;
pub mod interopnet;
pub mod mpool;
pub mod state;
