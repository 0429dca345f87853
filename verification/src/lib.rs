//! A replicated key-value store: a crash-safe storage engine and a
//! leader-based consensus module, with every function verified against
//! its contract.

pub mod network;
pub mod storage;
pub mod raft;
