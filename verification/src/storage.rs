//! The durable key-value engine: the in-memory map, the append-only log
//! of commands, and the engine that composes them.

pub mod in_memory_db;
pub mod append_only_log;
pub mod storage;
