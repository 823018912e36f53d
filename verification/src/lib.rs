//! An in-memory key-value server core that speaks RESP: the wire codec, the
//! expiring store, the command dispatcher, the connection registry of the
//! reactor and the replica's handshake with its primary.

pub mod bignum;
pub mod cache;
pub mod clock;
pub mod decimal;
pub mod event_loop;
pub mod handler;
pub mod replication;
pub mod resp;
pub mod server;
pub mod text;
