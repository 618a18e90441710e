//! Messages with optional ordering and delivery guarantees on top of a datagram
//! socket.
//!
//! An [`endpoint::Endpoint`] owns a socket and speaks to one peer. Messages are
//! sent in sets: the messages of one set may arrive in any order, and those of
//! a later set are held back until the earlier ones that promise delivery have
//! arrived.

pub mod clock;
pub mod config;
pub mod delivered;
pub mod drained;
pub mod endpoint;
pub mod error;
pub mod header;
pub mod history;
pub mod jumbled;
pub mod laws;
pub mod message;
pub mod mixed;
pub mod mod_ord;
pub mod once;
pub mod receiving;
pub mod sending;
pub mod set_sender;
pub mod state;
pub mod udp;
pub mod wire;
