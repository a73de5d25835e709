//! The cluster node, and what travels between nodes.

use raftkv::cluster::{ClusterNode, MessagePayload, PeerMessage};
use raftkv::metrics::{generate_metrics, http_response, metrics_port};
use raftkv::network::protocol::{Command, Response};
use raftkv::raft::message::{AppendEntriesResponse, RequestVoteResponse};
use raftkv::raft::persist::{PersistentState, RecoveryError};
use raftkv::raft::state::NodeRole;
use raftkv::sharding::router::ShardConfig;
use raftkv::storage::wal::serialize_entry;
use raftkv::transport::{find_node, host_variable, NetworkMessage, NodeConfig, PeerTransport};

/// Log all mutations that wait, and let them take effect.
fn settle(node: &mut ClusterNode, log: &mut String) {
    loop {
        match node.next_write() {
            Some(entry) => log.push_str(&serialize_entry(entry)),
            None => break,
        }
        let logged: Result<(), String> = Ok(());
        node.finish_write(logged).unwrap();
    }
}

/// A node that carries out commands as soon as they come.
struct Running {
    node: ClusterNode,
    log: String,
}

impl Running {
    fn tick(&mut self) {
        self.node.tick();
        settle(&mut self.node, &mut self.log);
    }

    fn handle_client_command(&mut self, command: Command) -> Response {
        let response = self.node.handle_client_command(command);
        settle(&mut self.node, &mut self.log);
        response
    }

    fn ask(&mut self, command: Command) -> String {
        self.handle_client_command(command).serialize()
    }
}

fn get(key: &str) -> Command {
    Command::Get { key: key.to_string() }
}

fn set(key: &str, value: &str) -> Command {
    Command::Put { key: key.to_string(), value: value.to_string() }
}

fn del(key: &str) -> Command {
    Command::Del { key: key.to_string() }
}

fn single() -> Running {
    let node = ClusterNode::new(1, vec![1], None, "").expect("Failed to create cluster node");
    let mut running = Running { node, log: String::new() };
    for _ in 0..25 {
        running.tick();
    }
    running
}

#[test]
fn test_cluster_node_single_node() {
    let node = ClusterNode::new(1, vec![1], None, "").expect("Failed to create cluster node");
    let mut node = Running { node, log: String::new() };

    for _ in 0..25 {
        node.tick();
    }

    assert_eq!(node.node.raft.state.role, NodeRole::Leader);

    let response = node.handle_client_command(Command::Put {
        key: "name".to_string(),
        value: "uday".to_string(),
    });
    match response {
        Response::SimpleString(s) => assert_eq!(s, "OK"),
        other => panic!("Expected OK, got {:?}", other),
    }

    let response = node.handle_client_command(Command::Get {
        key: "name".to_string(),
    });
    match response {
        Response::BulkString(s) => assert_eq!(s, "uday"),
        other => panic!("Expected BulkString, got {:?}", other),
    }

    node.handle_client_command(Command::Put {
        key: "balance".to_string(),
        value: "5000".to_string(),
    });

    let response = node.handle_client_command(Command::Del {
        key: "name".to_string(),
    });
    match response {
        Response::Integer(n) => assert_eq!(n, 1),
        other => panic!("Expected Integer, got {:?}", other),
    }

    let response = node.handle_client_command(Command::Get {
        key: "name".to_string(),
    });
    match response {
        Response::Null => {}
        other => panic!("Expected Null, got {:?}", other),
    }

    let response = node.handle_client_command(Command::Get {
        key: "balance".to_string(),
    });
    match response {
        Response::BulkString(s) => assert_eq!(s, "5000"),
        other => panic!("Expected BulkString, got {:?}", other),
    }

    let response = node.handle_client_command(Command::Ping);
    match response {
        Response::SimpleString(s) => assert_eq!(s, "PONG"),
        other => panic!("Expected PONG, got {:?}", other),
    }
}

fn two_shards() -> Vec<ShardConfig> {
    vec![
        ShardConfig {
            shard_id: 1,
            node_ids: vec![1, 2, 3],
            leader_port: Some(6381),
        },
        ShardConfig {
            shard_id: 2,
            node_ids: vec![4, 5, 6],
            leader_port: Some(6384),
        },
    ]
}

#[test]
fn test_sharded_cluster_node() {
    let node = ClusterNode::with_sharding(1, vec![1], None, "", 1, two_shards())
        .expect("Failed to create sharded node");
    let mut node = Running { node, log: String::new() };

    for _ in 0..25 {
        node.tick();
    }

    let mut accepted = 0;
    let mut moved = 0;

    for i in 0..50 {
        let key = format!("key_{}", i);
        let response = node.handle_client_command(Command::Put {
            key,
            value: "test".to_string(),
        });

        match response {
            Response::SimpleString(ref s) if s == "OK" => accepted += 1,
            Response::Error(ref e) if e.starts_with("MOVED") => moved += 1,
            other => panic!("Unexpected response: {:?}", other),
        }
    }

    assert!(accepted > 5, "Too few accepted: {}", accepted);
    assert!(moved > 5, "Too few moved: {}", moved);

    for i in 0..50 {
        let key = format!("key_{}", i);
        let response = node.handle_client_command(Command::Get { key: key.clone() });

        match response {
            Response::BulkString(_) => {}
            Response::Null => {}
            Response::Error(ref e) if e.starts_with("MOVED") => {}
            other => panic!("Unexpected response for {}: {:?}", key, other),
        }
    }
}

#[test]
fn foreign_keys_are_redirected() {
    let node = ClusterNode::with_sharding(1, vec![1], None, "", 1, two_shards()).unwrap();
    let mut node = Running { node, log: String::new() };
    for _ in 0..25 {
        node.tick();
    }
    let mut foreign = 0;
    for i in 0..50 {
        let key = format!("key_{}", i);
        let reply = node.ask(set(&key, "test"));
        if reply == "+OK\r\n" {
            assert_eq!(node.ask(get(&key)), "$4\r\ntest\r\n");
        } else {
            foreign += 1;
            let moved = "-ERR MOVED - key belongs to shard 2\r\n";
            assert_eq!(reply, moved);
            assert_eq!(node.ask(get(&key)), moved);
            assert_eq!(node.ask(del(&key)), moved);
            assert_eq!(node.node.pending_commit_index, None);
        }
    }
    assert!(foreign > 0);
    // Without any shard, no key has an owner.
    let mut lost = ClusterNode::with_sharding(1, vec![1], None, "", 1, Vec::new()).unwrap();
    let reply = lost.handle_client_command(get("a")).serialize();
    assert_eq!(reply, "-ERR MOVED - key belongs to shard 0\r\n");
}

#[test]
fn a_follower_refuses_writes_and_serves_reads() {
    let mut node = ClusterNode::new(2, vec![1, 2, 3], None, "PUT|a|1\n").unwrap();
    let refused = "-ERR NOTLEADER - this node is not the leader\r\n";
    assert_eq!(node.handle_client_command(set("a", "2")).serialize(), refused);
    assert_eq!(node.handle_client_command(del("a")).serialize(), refused);
    assert_eq!(node.pending_commit_index, None);
    assert_eq!(node.raft.state.log.last_index(), 0);
    assert!(node.outbound_messages.is_empty());
    assert_eq!(node.handle_client_command(get("a")).serialize(), "$1\r\n1\r\n");
    let odd = Command::Unknown { name: "FLY".to_string() };
    assert_eq!(node.handle_client_command(odd).serialize(), "-ERR unknown command 'FLY'\r\n");
}

#[test]
fn a_write_says_which_index_must_be_committed() {
    let mut node = single();
    assert_eq!(node.ask(set("a", "1")), "+OK\r\n");
    assert_eq!(node.node.pending_commit_index, Some(1));
    assert_eq!(node.ask(del("a")), ":1\r\n");
    assert_eq!(node.node.pending_commit_index, Some(2));
    assert_eq!(node.node.raft.state.commit_index, 2);
    node.ask(Command::Ping);
    assert_eq!(node.node.pending_commit_index, None);
}

#[test]
fn what_the_log_does_not_record_does_not_take_effect() {
    let mut node = single();
    node.node.handle_client_command(set("a", "1"));
    assert!(node.node.next_write().is_some());
    assert_eq!(node.node.handle_client_command(get("a")).serialize(), "$-1\r\n");
    assert_eq!(node.node.finish_write(Err("disk full")), Err("disk full"));
    assert!(node.node.next_write().is_none());
    assert_eq!(node.ask(get("a")), "$-1\r\n");
}

#[test]
fn mutations_take_effect_in_the_order_of_the_log() {
    let mut node = single();
    for value in ["1", "2", "3"] {
        node.node.handle_client_command(set("a", value));
    }
    node.node.handle_client_command(del("b"));
    assert_eq!(node.node.pending_writes.len(), 4);
    assert_eq!(node.ask(get("a")), "$-1\r\n");
    assert_eq!(node.ask(get("a")), "$1\r\n3\r\n");
    assert_eq!(node.log, "PUT|a|1\nPUT|a|2\nPUT|a|3\nDELETE|b\n");
}

#[test]
fn a_restarted_node_has_its_data() {
    let mut node = single();
    node.ask(set("a", "1"));
    node.ask(set("a", "2"));
    node.ask(set("b", "3"));
    node.ask(del("b"));
    let saved = node.node.raft.persistent_state();
    let restarted = ClusterNode::new(1, vec![1], Some(saved), &node.log).unwrap();
    let mut again = Running { node: restarted, log: node.log };
    assert_eq!(again.ask(get("a")), "$1\r\n2\r\n");
    assert_eq!(again.ask(get("b")), "$-1\r\n");
    // To apply the committed commands once more changes nothing.
    for _ in 0..25 {
        again.tick();
    }
    again.ask(set("c", "4"));
    assert_eq!(again.node.raft.state.last_applied, 5);
    assert_eq!(again.ask(get("a")), "$1\r\n2\r\n");
    assert_eq!(again.ask(get("b")), "$-1\r\n");
    assert_eq!(again.ask(get("c")), "$1\r\n4\r\n");
}

#[test]
fn a_node_does_not_start_from_a_truncated_state() {
    let saved = || Some(PersistentState { current_term: 1, voted_for: None, log: Vec::new() });
    match ClusterNode::new(1, vec![1], saved(), "") {
        Err(error) => assert_eq!(error, RecoveryError::MissingSentinel),
        Ok(_) => panic!("started from a truncated state"),
    }
    match ClusterNode::with_sharding(1, vec![1], saved(), "", 1, Vec::new()) {
        Err(error) => assert_eq!(error, RecoveryError::MissingSentinel),
        Ok(_) => panic!("started from a truncated state"),
    }
}

const NODES: [NodeConfig; 3] = [
    NodeConfig { id: 1, client_port: 6381, peer_port: 7001 },
    NodeConfig { id: 2, client_port: 6382, peer_port: 7002 },
    NodeConfig { id: 3, client_port: 6383, peer_port: 7003 },
];

#[test]
fn a_transport_knows_the_other_nodes() {
    let hosts = [Some("node1".to_string()), Some("node2".to_string()), None];
    let transport = PeerTransport::new(1, &NODES, &hosts);
    assert_eq!(transport.node_id, 1);
    assert_eq!(transport.peer_addresses.len(), 2);
    assert_eq!(transport.peer_addresses.get(&2), Some(&"node2:7002".to_string()));
    assert_eq!(transport.peer_addresses.get(&3), Some(&"127.0.0.1:7003".to_string()));
    assert_eq!(transport.peer_addresses.get(&1), None);
    let copy = PeerTransport::from_addresses(9, transport.peer_addresses.clone());
    assert_eq!(copy.node_id, 9);
    assert_eq!(copy.peer_addresses, transport.peer_addresses);
}

#[test]
fn nodes_are_found_by_id() {
    assert_eq!(find_node(&NODES, 2).unwrap().peer_port, 7002);
    assert!(find_node(&NODES, 4).is_none());
    let twice = [NODES[0], NodeConfig { id: 1, client_port: 1, peer_port: 1 }];
    assert_eq!(find_node(&twice, 1).unwrap().client_port, 6381);
    assert_eq!(host_variable(12), "PEER_HOST_12");
}

#[test]
fn messages_get_an_address_and_a_sender() {
    let transport = PeerTransport::new(2, &NODES, &[None, None, None]);
    let response = RequestVoteResponse { term: 3, vote_granted: true };
    let messages = vec![
        PeerMessage { to: 1, payload: MessagePayload::RequestVoteResponse(response) },
        PeerMessage { to: 8, payload: MessagePayload::RequestVoteResponse(response) },
        PeerMessage {
            to: 3,
            payload: MessagePayload::AppendEntriesResponse(AppendEntriesResponse {
                term: 4,
                success: true,
                match_index: Some(6),
            }),
        },
    ];
    let sent = transport.address_messages(messages);
    assert_eq!(sent.len(), 2);
    assert_eq!(sent[0].0, "127.0.0.1:7001");
    match &sent[0].1 {
        NetworkMessage::RequestVoteResponse { from, response } => {
            assert_eq!(*from, 2);
            assert_eq!(response.term, 3);
            assert!(response.vote_granted);
        }
        other => panic!("unexpected {:?}", other),
    }
    assert_eq!(sent[1].0, "127.0.0.1:7003");
    match &sent[1].1 {
        NetworkMessage::AppendEntriesResponse { from, response } => {
            assert_eq!(*from, 2);
            assert_eq!(response.match_index, Some(6));
        }
        other => panic!("unexpected {:?}", other),
    }
}

#[test]
fn messages_out_of_range_are_recognised() {
    let held = |term: u64, success: bool, match_index: Option<usize>| {
        NetworkMessage::AppendEntriesResponse {
            from: 1,
            response: AppendEntriesResponse { term, success, match_index },
        }
    };
    let largest = Some(usize::MAX);
    // Only a leader counts how far the others are.
    let follower = ClusterNode::new(2, vec![1, 2, 3], None, "").unwrap();
    assert!(PeerTransport::is_in_range(&follower, &held(0, true, largest)));

    let mut leader = ClusterNode::new(2, vec![1, 2, 3], None, "").unwrap();
    while leader.raft.state.role == NodeRole::Follower {
        leader.tick();
    }
    let vote = NetworkMessage::RequestVoteResponse {
        from: 1,
        response: RequestVoteResponse { term: 1, vote_granted: true },
    };
    assert!(PeerTransport::is_in_range(&leader, &vote));
    PeerTransport::dispatch_message(&mut leader, vote);
    assert_eq!(leader.raft.state.role, NodeRole::Leader);
    assert!(!PeerTransport::is_in_range(&leader, &held(1, true, largest)));
    assert!(PeerTransport::is_in_range(&leader, &held(0, true, largest)));
    assert!(PeerTransport::is_in_range(&leader, &held(2, true, largest)));
    assert!(PeerTransport::is_in_range(&leader, &held(1, false, largest)));
    assert!(PeerTransport::is_in_range(&leader, &held(1, true, Some(5))));
    assert!(PeerTransport::is_in_range(&leader, &held(1, true, None)));
}

/// Three nodes, and a network that delivers every message.
struct Cluster {
    nodes: Vec<Running>,
    transports: Vec<PeerTransport>,
}

impl Cluster {
    fn new() -> Cluster {
        let mut nodes = Vec::new();
        let mut transports = Vec::new();
        for id in 1..=3 {
            let node = ClusterNode::new(id, vec![1, 2, 3], None, "").unwrap();
            nodes.push(Running { node, log: String::new() });
            transports.push(PeerTransport::new(id, &NODES, &[None, None, None]));
        }
        Cluster { nodes, transports }
    }

    fn deliver(&mut self) {
        loop {
            let mut sent = Vec::new();
            for (running, transport) in self.nodes.iter_mut().zip(&self.transports) {
                let messages = running.node.take_outbound_messages();
                sent.extend(transport.address_messages(messages));
            }
            if sent.is_empty() {
                return;
            }
            for (address, message) in sent {
                let at = NODES
                    .iter()
                    .position(|node| address == format!("127.0.0.1:{}", node.peer_port))
                    .unwrap();
                let running = &mut self.nodes[at];
                assert!(PeerTransport::is_in_range(&running.node, &message));
                PeerTransport::dispatch_message(&mut running.node, message);
                settle(&mut running.node, &mut running.log);
            }
        }
    }
}

#[test]
fn a_write_reaches_all_nodes() {
    let mut cluster = Cluster::new();
    while cluster.nodes[0].node.raft.state.role != NodeRole::Leader {
        cluster.nodes[0].tick();
        cluster.deliver();
    }
    assert_eq!(cluster.nodes[0].ask(set("name", "uday")), "+OK\r\n");
    assert_eq!(cluster.nodes[0].node.pending_commit_index, Some(1));
    // Nothing is committed before the others have answered.
    assert_eq!(cluster.nodes[0].node.raft.state.commit_index, 0);
    assert_eq!(cluster.nodes[0].ask(get("name")), "$-1\r\n");
    cluster.deliver();
    assert_eq!(cluster.nodes[0].node.raft.state.commit_index, 1);
    assert_eq!(cluster.nodes[0].ask(get("name")), "$4\r\nuday\r\n");
    // The followers learn of the commit with the next heartbeat.
    for _ in 0..3 {
        cluster.nodes[0].tick();
    }
    cluster.deliver();
    for running in &mut cluster.nodes {
        assert_eq!(running.ask(get("name")), "$4\r\nuday\r\n");
        assert_eq!(running.log, "PUT|name|uday\n");
    }
}

#[test]
fn data_survives_the_leader() {
    let mut cluster = Cluster::new();
    while cluster.nodes[0].node.raft.state.role != NodeRole::Leader {
        cluster.nodes[0].tick();
        cluster.deliver();
    }
    cluster.nodes[0].ask(set("name", "uday"));
    cluster.deliver();
    // The leader is silent from now on; another node takes over.
    while cluster.nodes[1].node.raft.state.role != NodeRole::Leader {
        cluster.nodes[1].tick();
        cluster.deliver();
    }
    assert_eq!(cluster.nodes[0].node.raft.state.role, NodeRole::Follower);
    cluster.nodes[1].ask(set("city", "kharagpur"));
    cluster.deliver();
    assert_eq!(cluster.nodes[1].ask(get("name")), "$4\r\nuday\r\n");
    assert_eq!(cluster.nodes[1].ask(get("city")), "$9\r\nkharagpur\r\n");
}

#[test]
fn metrics_show_the_state_of_a_node() {
    let mut node = single();
    node.ask(set("a", "1"));
    let expected = "# HELP raftkv_current_term The current Raft term\n\
        # TYPE raftkv_current_term gauge\n\
        raftkv_current_term{node=\"1\"} 1\n\
        # HELP raftkv_role Current role (0=follower, 1=candidate, 2=leader)\n\
        # TYPE raftkv_role gauge\n\
        raftkv_role{node=\"1\",role=\"leader\"} 2\n\
        # HELP raftkv_commit_index The highest committed log index\n\
        # TYPE raftkv_commit_index gauge\n\
        raftkv_commit_index{node=\"1\"} 1\n\
        # HELP raftkv_last_applied The highest applied log index\n\
        # TYPE raftkv_last_applied gauge\n\
        raftkv_last_applied{node=\"1\"} 1\n\
        # HELP raftkv_log_length Number of entries in the Raft log\n\
        # TYPE raftkv_log_length gauge\n\
        raftkv_log_length{node=\"1\"} 1\n\
        # HELP raftkv_is_leader Whether this node is the leader (1=yes, 0=no)\n\
        # TYPE raftkv_is_leader gauge\n\
        raftkv_is_leader{node=\"1\"} 1\n\
        # HELP raftkv_known_leader The node ID of the known leader\n\
        # TYPE raftkv_known_leader gauge\n\
        raftkv_known_leader{node=\"1\"} 1\n";
    assert_eq!(generate_metrics(&node.node, 1), expected);

    let fresh = ClusterNode::new(2, vec![1, 2, 3], None, "").unwrap();
    let metrics = generate_metrics(&fresh, 2);
    assert!(metrics.contains("raftkv_role{node=\"2\",role=\"follower\"} 0\n"));
    assert!(metrics.contains("raftkv_is_leader{node=\"2\"} 0\n"));
    assert!(!metrics.contains("known_leader"));
}

#[test]
fn a_candidate_shows_as_one() {
    let mut node = ClusterNode::new(2, vec![1, 2, 3], None, "").unwrap();
    while node.raft.state.role == NodeRole::Follower {
        node.tick();
    }
    let metrics = generate_metrics(&node, 2);
    assert!(metrics.contains("raftkv_role{node=\"2\",role=\"candidate\"} 1\n"));
}

#[test]
fn metrics_are_served_over_http() {
    assert_eq!(metrics_port(1), 9101);
    assert_eq!(metrics_port(65537), 9101);
    assert_eq!(
        http_response("é\n"),
        "HTTP/1.1 200 OK\r\nContent-Type: text/plain; charset=utf-8\r\nContent-Length: 3\r\n\r\né\n"
    );
}
