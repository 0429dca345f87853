//! The consensus module: the replicated log, the two remote procedure
//! calls that maintain it, and the role state machine of a node.

pub mod rpc;
pub mod state;
pub mod node;
pub mod cluster;
pub mod replication;
pub mod commitment;
