//! What clients send and receive, and how a node serves them.

pub mod message;
pub mod server;
pub mod frame;
