//! A small Redis-compatible key-value store: the RESP wire protocol, the
//! command layer, an in-memory store with expiring keys, and the logic of its
//! persistence.

pub mod decimal;
pub mod text;
pub mod protocol;
pub mod storage;
pub mod server;
pub mod session;
pub mod persistence;
