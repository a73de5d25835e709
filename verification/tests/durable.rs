//! When something may leave a node, and what the client of a write is told.

use raftkv::cluster::{ClusterNode, Progress};
use raftkv::durable::DurableNode;
use raftkv::network::protocol::{Command, Response};
use raftkv::network::server::{PendingReply, Poll};
use raftkv::raft::log::{LogCommand, LogEntry};
use raftkv::raft::message::{AppendEntriesRequest, AppendEntriesResponse, RequestVoteResponse};
use raftkv::raft::state::NodeRole;
use raftkv::storage::wal::serialize_entry;
use raftkv::transport::{NetworkMessage, PeerTransport};

const OK: &str = "+OK\r\n";
const TIMEOUT: &str = "-ERR TIMEOUT - entry appended but not committed by a majority\r\n";
const REPLACED: &str = "-ERR REPLACED - another leader committed a different entry\r\n";
const NOT_LOGGED: &str = "-ERR NOTLOGGED - entry committed but not written to the log\r\n";

fn get(key: &str) -> Command {
    Command::Get { key: key.to_string() }
}

fn set(key: &str, value: &str) -> Command {
    Command::Put { key: key.to_string(), value: value.to_string() }
}

/// The state of a node is saved.
fn save(node: &mut DurableNode) {
    let saved: Result<(), String> = Ok(());
    node.finish_save(saved).unwrap();
}

/// The state is saved, and all mutations that wait are logged.
fn settle(node: &mut DurableNode) -> String {
    save(node);
    let mut log = String::new();
    loop {
        match node.next_write() {
            Some(entry) => log.push_str(&serialize_entry(entry)),
            None => break,
        }
        assert!(node.cluster.has_room());
        let logged: Result<(), String> = Ok(());
        node.finish_write(logged).unwrap();
    }
    log
}

/// The leader of term 1 of a cluster of three nodes.
fn leader() -> DurableNode {
    let mut node = DurableNode::new(ClusterNode::new(1, vec![1, 2, 3], None, "").unwrap());
    while node.cluster.raft.state.role == NodeRole::Follower {
        assert!(node.cluster.raft.can_tick());
        node.tick();
    }
    node.receive(NetworkMessage::RequestVoteResponse {
        from: 2,
        response: RequestVoteResponse { term: 1, vote_granted: true },
    });
    assert_eq!(node.cluster.raft.state.role, NodeRole::Leader);
    settle(&mut node);
    node
}

/// A node of a cluster of one, which leads in term 1.
fn single() -> DurableNode {
    let mut node = DurableNode::new(ClusterNode::new(1, vec![1], None, "").unwrap());
    while node.cluster.raft.state.role != NodeRole::Leader {
        node.tick();
    }
    settle(&mut node);
    node
}

fn confirm(node: &mut DurableNode, index: usize) {
    let message = NetworkMessage::AppendEntriesResponse {
        from: 3,
        response: AppendEntriesResponse { term: 1, success: true, match_index: Some(index) },
    };
    assert!(PeerTransport::is_in_range(&node.cluster, &message));
    node.receive(message);
}

/// The leader of term 2 puts another entry at index 1, and commits it.
fn replace(node: &mut DurableNode) {
    let entry = LogEntry {
        term: 2,
        command: LogCommand::Put { key: "b".to_string(), value: "2".to_string() },
    };
    node.receive(NetworkMessage::AppendEntries {
        from: 2,
        request: AppendEntriesRequest {
            term: 2,
            leader_id: 2,
            prev_log_index: 0,
            prev_log_term: 0,
            entries: vec![entry],
            leader_commit: 1,
        },
    });
}

fn held(poll: Poll) -> PendingReply {
    match poll {
        Poll::Wait(pending) => pending,
        Poll::Ready(response) => panic!("too early: {:?}", response),
    }
}

fn told(poll: Poll) -> String {
    match poll {
        Poll::Ready(response) => response.serialize(),
        Poll::Wait(pending) => panic!("held back: {:?}", pending),
    }
}

#[test]
fn only_writes_are_held() {
    let mut node = single();
    assert_eq!(told(node.handle_client_command(get("a"))), "$-1\r\n");
    assert_eq!(told(node.handle_client_command(Command::Ping)), "+PONG\r\n");
    let pending = held(node.handle_client_command(set("a", "1")));
    assert_eq!((pending.index, pending.term), (1, 1));
    let ready = PendingReply::hold(None, 7, Response::Integer(1));
    assert_eq!(told(ready), ":1\r\n");
    // A node that does not lead refuses at once.
    let mut follower = DurableNode::new(ClusterNode::new(2, vec![1, 2], None, "").unwrap());
    assert_eq!(
        told(follower.handle_client_command(set("a", "1"))),
        "-ERR NOTLEADER - this node is not the leader\r\n"
    );
}

#[test]
fn a_write_is_confirmed_once_it_is_committed() {
    let mut node = leader();
    let pending = held(node.handle_client_command(set("a", "1")));
    settle(&mut node);
    assert_eq!(node.progress(1, 1), Progress::Waiting);
    let pending = held(pending.poll(&node, false));
    confirm(&mut node, 1);
    assert_eq!(settle(&mut node), "PUT|a|1\n");
    assert_eq!(node.progress(1, 1), Progress::Done);
    assert_eq!(told(pending.poll(&node, true)), OK);
    assert_eq!(told(node.handle_client_command(get("a"))), "$1\r\n1\r\n");
}

#[test]
fn a_write_that_is_not_committed_in_time_is_an_error() {
    let mut node = leader();
    let pending = held(node.handle_client_command(set("a", "1")));
    settle(&mut node);
    assert_eq!(told(pending.poll(&node, true)), TIMEOUT);
}

#[test]
fn a_write_that_is_replaced_is_an_error() {
    let mut node = leader();
    let pending = held(node.handle_client_command(set("a", "1")));
    settle(&mut node);
    let pending = held(pending.poll(&node, false));
    replace(&mut node);
    assert_eq!(settle(&mut node), "PUT|b|2\n");
    assert_eq!(node.cluster.raft.state.commit_index, 1);
    assert_eq!(node.progress(1, 1), Progress::Replaced);
    assert_eq!(node.progress(1, 2), Progress::Done);
    assert_eq!(told(pending.poll(&node, false)), REPLACED);
    assert_eq!(told(node.handle_client_command(get("a"))), "$-1\r\n");
    assert_eq!(told(node.handle_client_command(get("b"))), "$1\r\n2\r\n");
}

#[test]
fn a_write_that_is_not_logged_is_an_error() {
    let mut node = single();
    let first = held(node.handle_client_command(set("a", "1")));
    let second = held(node.handle_client_command(set("b", "2")));
    save(&mut node);
    // What is committed but not logged yet is not confirmed.
    assert_eq!(node.cluster.raft.state.commit_index, 2);
    let first = held(first.poll(&node, false));
    assert_eq!(node.finish_write(Err("disk full")), Err("disk full"));
    let second = held(second.poll(&node, false));
    let logged: Result<(), String> = Ok(());
    node.finish_write(logged).unwrap();
    assert_eq!(node.cluster.unlogged, vec![1]);
    assert_eq!(node.progress(1, 1), Progress::Unlogged);
    assert_eq!(told(first.poll(&node, false)), NOT_LOGGED);
    assert_eq!(told(second.poll(&node, false)), OK);
    assert_eq!(told(node.handle_client_command(get("a"))), "$-1\r\n");
    assert_eq!(told(node.handle_client_command(get("b"))), "$1\r\n2\r\n");
}

#[test]
fn nothing_leaves_a_node_that_is_not_saved() {
    let mut node = leader();
    node.take_outbound_messages();
    let pending = held(node.handle_client_command(set("a", "1")));
    assert!(!node.is_saved);
    assert_eq!(node.state_to_save().log.len(), 2);
    assert!(node.take_outbound_messages().is_empty());
    assert_eq!(node.finish_save(Err("disk full")), Err("disk full"));
    assert!(node.take_outbound_messages().is_empty());
    confirm(&mut node, 1);
    assert_eq!(node.cluster.raft.state.commit_index, 1);
    assert!(node.next_write().is_none());
    assert_eq!(node.progress(1, 1), Progress::Waiting);
    let pending = held(pending.poll(&node, false));
    save(&mut node);
    assert_eq!(node.take_outbound_messages().len(), 2);
    assert!(node.take_outbound_messages().is_empty());
    assert_eq!(settle(&mut node), "PUT|a|1\n");
    assert_eq!(told(pending.poll(&node, false)), OK);
    node.tick();
    assert!(!node.is_saved);
}

#[test]
fn a_tick_needs_a_term_that_is_left() {
    let mut node = ClusterNode::new(1, vec![1, 2], None, "").unwrap();
    assert!(node.raft.can_tick());
    node.raft.state.current_term = u64::MAX;
    assert!(node.raft.can_tick());
    while node.raft.election_timeout > 1 {
        node.tick();
    }
    assert!(!node.raft.can_tick());
    node.raft.state.current_term = u64::MAX - 1;
    assert!(node.raft.can_tick());
    node.raft.state.current_term = u64::MAX;
    node.raft.state.role = NodeRole::Leader;
    assert!(node.raft.can_tick());
}
