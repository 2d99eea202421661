//! Persistence: point-in-time snapshots of the store and the append-only log
//! of write commands that is replayed on top of the last snapshot.
//!
//! Files are read and written by the program around the library; here are
//! what goes into a snapshot, how a snapshot becomes a store again, and how
//! the log is replayed.

pub mod aof;
pub mod snapshot;
