//! The Raft consensus protocol: log, messages, state, node and their laws.

pub mod commit;
pub mod election;
pub mod history;
pub mod laws;
pub mod log;
pub mod message;
pub mod model;
pub mod node;
pub mod persist;
pub mod replication;
pub mod safety;
pub mod state;
