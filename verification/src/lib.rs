//! A replicated, crash-safe key-value store.
//!
//! - [`raft`]: consensus. A node is a state machine that takes messages and ticks and gives back
//!   actions; its laws are proved for one node and for whole clusters over an unreliable network.
//! - [`storage`]: the write-ahead log, the memtable and the engine that ties them together.
//! - [`sharding`]: the consistent-hash ring and the router.
//! - [`network`]: the wire protocol of clients, and what a connection does with it.
//! - [`cluster`]: a cluster node, which puts these together.
//! - [`durable`]: a cluster node whose state is saved before anything leaves it.
//! - [`service`]: what a cluster node owes its clients and its peers.
//! - [`transport`]: what travels between nodes, and where they are.
//! - [`metrics`]: the state of a node as text.
//! - [`text`]: decimal numbers, lines and fields, on which the text formats rest.
//!
//! Nothing here reads or writes a file or a socket, and nothing reads a clock. What is to be done
//! comes back as a value, and what was done goes in as one.

use vstd::prelude::*;

pub mod cluster;
pub mod durable;
pub mod metrics;
pub mod network;
pub mod raft;
pub mod service;
pub mod sharding;
pub mod storage;
pub mod text;
pub mod transport;

verus! {

} // verus!
