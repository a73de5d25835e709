//! The Raft log, state and node.

use raftkv::raft::log::{LogCommand, LogEntry, RaftLog};
use raftkv::raft::message::{
    AppendEntriesRequest, AppendEntriesResponse, RequestVoteRequest, RequestVoteResponse,
};
use raftkv::raft::node::{Action, RaftNode};
use raftkv::raft::persist::{PersistentState, RecoveryError};
use raftkv::raft::state::{NodeRole, RaftState};

#[test]
fn test_raft_log_operations() {
    let mut log = RaftLog::new();

    // Fresh log has just the sentinel
    assert_eq!(log.last_index(), 0);
    assert_eq!(log.last_term(), 0);
    assert_eq!(log.len(), 0);

    // Append an entry at term 1
    let idx = log.append(LogEntry {
        term: 1,
        command: LogCommand::Put {
            key: "name".to_string(),
            value: "uday".to_string(),
        },
    });
    assert_eq!(idx, 1);              // First real entry is at index 1
    assert_eq!(log.last_index(), 1);
    assert_eq!(log.last_term(), 1);
    assert_eq!(log.len(), 1);

    // Append another at term 1
    log.append(LogEntry {
        term: 1,
        command: LogCommand::Put {
            key: "balance".to_string(),
            value: "5000".to_string(),
        },
    });
    assert_eq!(log.last_index(), 2);
    assert_eq!(log.len(), 2);

    // Append one at term 2 (new leader)
    log.append(LogEntry {
        term: 2,
        command: LogCommand::Delete {
            key: "name".to_string(),
        },
    });
    assert_eq!(log.last_index(), 3);
    assert_eq!(log.last_term(), 2);

    // term_at works correctly
    assert_eq!(log.term_at(0), 0);  // sentinel
    assert_eq!(log.term_at(1), 1);
    assert_eq!(log.term_at(2), 1);
    assert_eq!(log.term_at(3), 2);
    assert_eq!(log.term_at(99), 0); // out of bounds = 0

    // entries_from returns the right slice
    let from_2 = log.entries_from(2);
    assert_eq!(from_2.len(), 2); // entries at index 2 and 3

    // Truncate from index 3 — removes entry at index 3
    log.truncate_from(3);
    assert_eq!(log.last_index(), 2);
    assert_eq!(log.last_term(), 1); // back to term 1
    assert_eq!(log.len(), 2);
}

#[test]
fn test_raft_state_transitions() {
    let mut state = RaftState::new(1, vec![1, 2, 3]);

    // Starts as follower, term 0
    assert_eq!(state.role, NodeRole::Follower);
    assert_eq!(state.current_term, 0);
    assert_eq!(state.voted_for, None);

    // Become candidate — term increments, votes for self
    state.become_candidate();
    assert_eq!(state.role, NodeRole::Candidate);
    assert_eq!(state.current_term, 1);
    assert_eq!(state.voted_for, Some(1)); // voted for self

    // Win election — become leader
    state.become_leader();
    assert_eq!(state.role, NodeRole::Leader);
    assert_eq!(state.leader_id, Some(1));
    // next_index initialized for peers 2 and 3
    assert_eq!(state.next_index.len(), 2);
    assert_eq!(state.match_index.len(), 2);

    // Discover higher term — step down to follower
    state.become_follower(5);
    assert_eq!(state.role, NodeRole::Follower);
    assert_eq!(state.current_term, 5);
    assert_eq!(state.voted_for, None); // vote cleared for new term
    assert!(state.next_index.is_empty()); // leader state cleared

    // Majority of 3 nodes = 2
    assert_eq!(state.majority_count(), 2);
}

#[test]
fn test_leader_election() {
    // Create a 3-node cluster
    let peers = vec![1, 2, 3];
    let mut node1 = RaftNode::new(1, peers.clone());
    let mut node2 = RaftNode::new(2, peers.clone());
    let mut node3 = RaftNode::new(3, peers.clone());

    // All start as followers
    assert_eq!(node1.state.role, NodeRole::Follower);
    assert_eq!(node2.state.role, NodeRole::Follower);
    assert_eq!(node3.state.role, NodeRole::Follower);

    // Tick node1 until it times out and starts an election.
    // We tick up to 25 times (max timeout is 20).
    let mut election_actions = Vec::new();
    for _ in 0..25 {
        let actions = node1.tick();
        if !actions.is_empty() {
            election_actions = actions;
            break;
        }
    }

    // Node1 should be a candidate now
    assert_eq!(node1.state.role, NodeRole::Candidate);
    assert_eq!(node1.state.current_term, 1);

    // It should have sent RequestVote to nodes 2 and 3
    assert_eq!(election_actions.len(), 2);

    // Extract the vote requests and deliver them
    for action in &election_actions {
        match action {
            Action::SendRequestVote { to, request } => {
                // Deliver the vote request to the target node
                let response_actions = if *to == 2 {
                    node2.handle_request_vote(request.clone())
                } else {
                    node3.handle_request_vote(request.clone())
                };

                // Each should respond with a vote
                assert_eq!(response_actions.len(), 1);

                // Deliver the response back to node1
                if let Action::SendRequestVoteResponse { response, .. } =
                    &response_actions[0]
                {
                    assert!(response.vote_granted);
                    node1.handle_request_vote_response(
                        *to,
                        response.clone(),
                    );
                }
            }
            _ => panic!("Expected SendRequestVote action"),
        }
    }

    // Node1 should now be the leader!
    assert_eq!(node1.state.role, NodeRole::Leader);
    assert_eq!(node1.state.current_term, 1);
    assert_eq!(node1.state.leader_id, Some(1));

    // Nodes 2 and 3 should be followers at term 1
    assert_eq!(node2.state.role, NodeRole::Follower);
    assert_eq!(node2.state.current_term, 1);
    assert_eq!(node3.state.role, NodeRole::Follower);
    assert_eq!(node3.state.current_term, 1);
}

#[test]
fn test_log_replication() {
    // === SETUP: elect node1 as leader ===
    let peers = vec![1, 2, 3];
    let mut node1 = RaftNode::new(1, peers.clone());
    let mut node2 = RaftNode::new(2, peers.clone());
    let mut node3 = RaftNode::new(3, peers.clone());

    // Fast-forward node1 to become leader
    // (We tested election in detail already; here we just
    //  set it up quickly to test replication)

    // Tick node1 until it starts an election
    let mut vote_requests = Vec::new();
    for _ in 0..25 {
        let actions = node1.tick();
        if !actions.is_empty() {
            vote_requests = actions;
            break;
        }
    }
    assert_eq!(node1.state.role, NodeRole::Candidate);

    // Deliver votes from node2 and node3
    for action in &vote_requests {
        if let Action::SendRequestVote { to, request } = action {
            let responses = if *to == 2 {
                node2.handle_request_vote(request.clone())
            } else {
                node3.handle_request_vote(request.clone())
            };

            for resp_action in &responses {
                if let Action::SendRequestVoteResponse { response, .. } = resp_action {
                    node1.handle_request_vote_response(*to, response.clone());
                }
            }
        }
    }
    assert_eq!(node1.state.role, NodeRole::Leader);

    // === TEST: propose a write and replicate it ===

    // Client sends: SET name uday
    let actions = node1.propose(LogCommand::Put {
        key: "name".to_string(),
        value: "uday".to_string(),
    }).expect("Leader should accept proposal");

    // The leader should send AppendEntries to both followers
    assert_eq!(actions.len(), 2);

    // Verify the leader's log has the entry
    assert_eq!(node1.state.log.last_index(), 1);
    assert_eq!(node1.state.log.last_term(), 1);

    // Entry is NOT committed yet — only the leader has it
    assert_eq!(node1.state.commit_index, 0);

    // === Deliver AppendEntries to followers ===

    let mut all_response_actions = Vec::new();

    for action in &actions {
        if let Action::SendAppendEntries { to, request } = action {
            let response_actions = if *to == 2 {
                node2.handle_append_entries(request.clone())
            } else {
                node3.handle_append_entries(request.clone())
            };

            // Each follower should accept and respond
            for resp_action in response_actions {
                all_response_actions.push((*to, resp_action));
            }
        }
    }

    // Verify followers have the entry in their logs
    assert_eq!(node2.state.log.last_index(), 1);
    assert_eq!(node3.state.log.last_index(), 1);

    // === Deliver responses back to leader ===

    let mut apply_actions = Vec::new();

    for (from, action) in &all_response_actions {
        if let Action::SendAppendEntriesResponse { response, .. } = action {
            let leader_actions = node1.handle_append_entries_response(
                *from,
                response.clone(),
            );

            // Collect any ApplyEntry actions
            for a in leader_actions {
                if matches!(&a, Action::ApplyEntry { .. }) {
                    apply_actions.push(a);
                }
            }
        }
    }

    // === Verify: entry is now committed ===

    // Leader's commit_index should have advanced to 1
    assert_eq!(node1.state.commit_index, 1);

    // The leader should have produced an ApplyEntry action
    assert!(!apply_actions.is_empty());

    // Verify the apply action contains the right command
    if let Action::ApplyEntry { index, command } = &apply_actions[0] {
        assert_eq!(*index, 1);
        match command {
            LogCommand::Put { key, value } => {
                assert_eq!(key, "name");
                assert_eq!(value, "uday");
            }
            _ => panic!("Expected Put command"),
        }
    } else {
        panic!("Expected ApplyEntry action");
    }

    // === TEST: propose a second write ===

    let actions = node1.propose(LogCommand::Put {
        key: "balance".to_string(),
        value: "5000".to_string(),
    }).expect("Leader should accept proposal");

    // Deliver to node2 only (node3 is "slow" / partitioned)
    for action in &actions {
        if let Action::SendAppendEntries { to, request } = action {
            if *to == 2 {
                let responses = node2.handle_append_entries(request.clone());

                for resp_action in &responses {
                    if let Action::SendAppendEntriesResponse { response, .. } = resp_action {
                        node1.handle_append_entries_response(2, response.clone());
                    }
                }
            }
            // Skip node3 — simulating it being slow/unreachable
        }
    }

    // Should STILL commit — node1 + node2 = 2 out of 3 = majority
    assert_eq!(node1.state.commit_index, 2);

    // Node2 has both entries
    assert_eq!(node2.state.log.last_index(), 2);

    // Node3 still only has the first entry
    assert_eq!(node3.state.log.last_index(), 1);

    // === Verify: non-leader cannot propose ===

    let result = node2.propose(LogCommand::Put {
        key: "test".to_string(),
        value: "fail".to_string(),
    });
    assert!(result.is_none()); // Followers can't propose
}

#[test]
fn test_raft_persistence() {
    let peers = vec![1, 2, 3];
    let mut disk: Option<PersistentState> = None;

    {
        let mut node = RaftNode::with_persistence(1, peers.clone(), disk.take())
            .expect("Failed to create node");

        for _ in 0..25 {
            let actions = node.tick();
            if !actions.is_empty() {
                break;
            }
        }

        assert_eq!(node.state.current_term, 1);
        assert_eq!(node.state.voted_for, Some(1));

        node.state.become_leader();
        node.state.log.append(LogEntry {
            term: 1,
            command: LogCommand::Put {
                key: "name".to_string(),
                value: "uday".to_string(),
            },
        });

        disk = Some(node.persistent_state());
    }
    // The node is gone; only what was saved is left.
    {
        let node = RaftNode::with_persistence(1, peers.clone(), disk.take())
            .expect("Failed to recover node");

        assert_eq!(node.state.current_term, 1);
        assert_eq!(node.state.voted_for, Some(1));
        assert_eq!(node.state.log.last_index(), 1);
        assert_eq!(node.state.log.last_term(), 1);

        let entry = node.state.log.get(1).expect("Entry should exist");
        assert_eq!(entry.term, 1);
        match &entry.command {
            LogCommand::Put { key, value } => {
                assert_eq!(key, "name");
                assert_eq!(value, "uday");
            }
            _ => panic!("Expected Put command"),
        }

        assert_eq!(node.state.role, NodeRole::Follower);
        assert_eq!(node.state.commit_index, 0);
        assert_eq!(node.state.last_applied, 0);
    }
}

fn put(key: &str, value: &str) -> LogCommand {
    LogCommand::Put { key: key.to_string(), value: value.to_string() }
}

fn entry(term: u64, key: &str) -> LogEntry {
    LogEntry { term, command: put(key, "v") }
}

/// A node of a cluster of three that leads in term 1.
fn leader() -> RaftNode {
    let mut node = RaftNode::new(1, vec![1, 2, 3]);
    while node.state.role == NodeRole::Follower {
        node.tick();
    }
    let granted = RequestVoteResponse { term: 1, vote_granted: true };
    let sent = node.handle_request_vote_response(2, granted);
    assert_eq!(sent.len(), 2);
    node
}

fn append(term: u64, prev: (usize, u64), entries: Vec<LogEntry>, commit: usize) -> AppendEntriesRequest {
    AppendEntriesRequest {
        term,
        leader_id: 9,
        prev_log_index: prev.0,
        prev_log_term: prev.1,
        entries,
        leader_commit: commit,
    }
}

/// The answer to the leader among some actions.
fn answer(actions: &[Action]) -> AppendEntriesResponse {
    match actions.last() {
        Some(Action::SendAppendEntriesResponse { to, response }) => {
            assert_eq!(*to, 9);
            *response
        }
        other => panic!("no answer: {:?}", other),
    }
}

fn applied(actions: &[Action]) -> Vec<usize> {
    let mut indices = Vec::new();
    for action in actions {
        if let Action::ApplyEntry { index, .. } = action {
            indices.push(*index);
        }
    }
    indices
}

#[test]
fn a_saved_log_needs_its_sentinel() {
    let saved = PersistentState { current_term: 4, voted_for: None, log: Vec::new() };
    match RaftNode::with_persistence(1, vec![1], Some(saved)) {
        Err(error) => assert_eq!(error, RecoveryError::MissingSentinel),
        Ok(_) => panic!("a log without a sentinel was taken"),
    }
}

#[test]
fn a_restart_keeps_term_vote_and_log() {
    let mut node = leader();
    node.propose(put("a", "1"));
    let restarted =
        RaftNode::with_persistence(1, vec![1, 2, 3], Some(node.persistent_state())).unwrap();
    assert_eq!(restarted.state.current_term, 1);
    assert_eq!(restarted.state.voted_for, Some(1));
    assert_eq!(restarted.state.log.len(), 1);
    assert_eq!(restarted.state.role, NodeRole::Follower);
    assert_eq!(restarted.state.leader_id, None);
    assert!(restarted.state.next_index.is_empty());
}

#[test]
fn a_node_votes_once_in_a_term() {
    let mut node = RaftNode::new(3, vec![1, 2, 3]);
    let request = |candidate_id: u64, term: u64| RequestVoteRequest {
        term,
        candidate_id,
        last_log_index: 0,
        last_log_term: 0,
    };
    let granted = |actions: Vec<Action>| match &actions[..] {
        [Action::SendRequestVoteResponse { response, .. }] => response.vote_granted,
        other => panic!("unexpected {:?}", other),
    };
    assert!(granted(node.handle_request_vote(request(1, 5))));
    assert_eq!(node.state.voted_for, Some(1));
    assert_eq!(node.state.current_term, 5);
    // A second candidate of the term is refused, the first is confirmed.
    assert!(!granted(node.handle_request_vote(request(2, 5))));
    assert!(granted(node.handle_request_vote(request(1, 5))));
    // A stale candidate is refused and changes nothing.
    assert!(!granted(node.handle_request_vote(request(2, 4))));
    assert_eq!(node.state.current_term, 5);
    // A new term brings a new vote.
    assert!(granted(node.handle_request_vote(request(2, 6))));
    assert_eq!(node.state.voted_for, Some(2));
}

#[test]
fn a_candidate_with_an_older_log_is_refused() {
    let mut node = RaftNode::new(2, vec![1, 2, 3]);
    node.handle_append_entries(append(2, (0, 0), vec![entry(1, "a"), entry(2, "b")], 0));
    let ask = |node: &mut RaftNode, term: u64, index: usize, last: u64| {
        let request = RequestVoteRequest {
            term,
            candidate_id: 1,
            last_log_index: index,
            last_log_term: last,
        };
        match &node.handle_request_vote(request)[0] {
            Action::SendRequestVoteResponse { response, .. } => response.vote_granted,
            other => panic!("unexpected {:?}", other),
        }
    };
    assert!(!ask(&mut node, 3, 9, 1));
    assert!(!ask(&mut node, 4, 1, 2));
    assert!(ask(&mut node, 5, 2, 2));
    assert!(ask(&mut node, 6, 1, 3));
}

#[test]
fn split_votes_elect_nobody() {
    let mut node = RaftNode::new(1, vec![1, 2, 3, 4, 5]);
    while node.state.role == NodeRole::Follower {
        node.tick();
    }
    let vote = |granted: bool| RequestVoteResponse { term: 1, vote_granted: granted };
    node.handle_request_vote_response(2, vote(true));
    // The same vote twice counts once.
    node.handle_request_vote_response(2, vote(true));
    node.handle_request_vote_response(3, vote(false));
    assert_eq!(node.state.role, NodeRole::Candidate);
    node.handle_request_vote_response(4, vote(true));
    assert_eq!(node.state.role, NodeRole::Leader);
}

#[test]
fn a_candidate_runs_again_when_nobody_wins() {
    let mut node = RaftNode::new(1, vec![1, 2, 3]);
    for _ in 0..60 {
        node.tick();
    }
    assert_eq!(node.state.role, NodeRole::Candidate);
    assert!(node.state.current_term >= 3);
}

#[test]
fn timeouts_are_in_range_and_silence_starts_an_election() {
    for id in 1..=20 {
        let mut node = RaftNode::new(id, vec![1, 2, 3]);
        let timeout = node.election_timeout;
        assert!(timeout >= 10 && timeout < 20);
        for _ in 1..timeout {
            assert!(node.tick().is_empty());
            assert_eq!(node.state.role, NodeRole::Follower);
        }
        assert!(!node.tick().is_empty());
        assert_eq!(node.state.role, NodeRole::Candidate);
        assert_eq!(node.state.current_term, 1);
    }
}

#[test]
fn the_first_timeout_of_a_node_follows_from_its_id() {
    let node = RaftNode::new(1, vec![1]);
    let seed = 6364136223846793005u64.wrapping_add(1442695040888963407);
    assert_eq!(node.random_seed, seed);
    assert_eq!(node.election_timeout, seed % 10 + 10);
}

#[test]
fn a_leader_sends_a_heartbeat_every_third_tick() {
    let mut node = leader();
    assert_eq!(node.tick().len(), 2);
    assert_eq!(node.tick().len(), 0);
    assert_eq!(node.tick().len(), 0);
    let sent = node.tick();
    assert_eq!(sent.len(), 2);
    match &sent[0] {
        Action::SendAppendEntries { to, request } => {
            assert_eq!(*to, 2);
            assert_eq!(request.prev_log_index, 0);
            assert!(request.entries.is_empty());
        }
        other => panic!("unexpected {:?}", other),
    }
}

#[test]
fn a_higher_term_makes_a_leader_step_down() {
    let mut node = leader();
    node.handle_append_entries_response(
        2,
        AppendEntriesResponse { term: 7, success: false, match_index: None },
    );
    assert_eq!(node.state.role, NodeRole::Follower);
    assert_eq!(node.state.current_term, 7);
    assert_eq!(node.state.voted_for, None);
    assert!(node.state.match_index.is_empty());
}

#[test]
fn a_higher_term_in_an_answer_is_adopted_in_any_role() {
    let vote = RequestVoteResponse { term: 7, vote_granted: true };
    let held = AppendEntriesResponse { term: 7, success: true, match_index: Some(3) };

    let follower = || {
        let mut node = RaftNode::new(2, vec![1, 2, 3]);
        node.handle_append_entries(append(1, (0, 0), vec![entry(1, "a")], 1));
        node
    };
    let candidate = || {
        let mut node = follower();
        run_for_leader(&mut node);
        node
    };
    let starts: [fn(RaftNode) -> RaftNode; 2] = [
        |mut node| {
            let vote = RequestVoteResponse { term: 7, vote_granted: true };
            assert!(node.handle_request_vote_response(1, vote).is_empty());
            node
        },
        |mut node| {
            let held = AppendEntriesResponse { term: 7, success: true, match_index: Some(3) };
            assert!(node.handle_append_entries_response(1, held).is_empty());
            node
        },
    ];
    for start in starts {
        for before in [follower(), candidate(), leader()] {
            let (last, commit) = (before.state.log.last_index(), before.state.commit_index);
            let after = start(before);
            assert_eq!(after.state.current_term, 7);
            assert_eq!(after.state.role, NodeRole::Follower);
            assert_eq!(after.state.voted_for, None);
            assert!(after.state.next_index.is_empty());
            assert!(after.state.match_index.is_empty());
            assert_eq!(after.state.log.last_index(), last);
            assert_eq!(after.state.commit_index, commit);
        }
    }

    // An answer of its own term changes nothing on a follower.
    let mut node = follower();
    node.handle_request_vote_response(1, RequestVoteResponse { term: 1, ..vote });
    node.handle_append_entries_response(1, AppendEntriesResponse { term: 1, ..held });
    assert_eq!(node.state.current_term, 1);
    assert_eq!(node.state.role, NodeRole::Follower);
    assert_eq!(node.state.leader_id, Some(9));
}

#[test]
fn a_request_past_the_end_of_the_log_is_refused() {
    let mut node = RaftNode::new(2, vec![1, 2, 3]);
    node.handle_append_entries(append(1, (0, 0), vec![entry(1, "a")], 0));
    for entries in [Vec::new(), vec![entry(1, "z")]] {
        let response = answer(&node.handle_append_entries(append(1, (7, 0), entries, 1)));
        assert!(!response.success);
        assert_eq!(response.match_index, Some(1));
        assert_eq!(node.state.log.last_index(), 1);
        assert_eq!(node.state.commit_index, 0);
    }
    let response = answer(&node.handle_append_entries(append(
        1,
        (usize::MAX, 0),
        vec![entry(1, "z")],
        1,
    )));
    assert!(!response.success);
}

#[test]
fn a_stale_leader_is_refused() {
    let mut node = RaftNode::new(2, vec![1, 2, 3]);
    node.handle_append_entries(append(4, (0, 0), vec![entry(4, "a")], 0));
    let actions = node.handle_append_entries(append(3, (0, 0), vec![entry(3, "b")], 1));
    let response = answer(&actions);
    assert!(!response.success);
    assert_eq!(response.term, 4);
    assert_eq!(response.match_index, None);
    assert_eq!(node.state.log.last_term(), 4);
}

#[test]
fn a_gap_is_refused_with_the_end_of_the_log() {
    let mut node = RaftNode::new(2, vec![1, 2, 3]);
    node.handle_append_entries(append(1, (0, 0), vec![entry(1, "a")], 0));
    let response = answer(&node.handle_append_entries(append(1, (5, 1), vec![entry(1, "f")], 0)));
    assert!(!response.success);
    assert_eq!(response.match_index, Some(1));
    assert_eq!(node.state.log.last_index(), 1);
}

#[test]
fn a_conflict_truncates_the_log() {
    let mut node = RaftNode::new(2, vec![1, 2, 3]);
    let old = vec![entry(1, "a"), entry(1, "b"), entry(1, "c")];
    node.handle_append_entries(append(1, (0, 0), old, 0));
    let new = vec![entry(1, "b"), entry(2, "x")];
    let response = answer(&node.handle_append_entries(append(2, (1, 1), new, 0)));
    assert!(response.success);
    assert_eq!(response.match_index, Some(3));
    assert_eq!(node.state.log.get(1), Some(&entry(1, "a")));
    assert_eq!(node.state.log.get(2), Some(&entry(1, "b")));
    assert_eq!(node.state.log.get(3), Some(&entry(2, "x")));
    assert_eq!(node.state.log.last_index(), 3);
}

#[test]
fn entries_that_are_held_stay_and_may_come_twice() {
    let mut node = RaftNode::new(2, vec![1, 2, 3]);
    let entries = vec![entry(1, "a"), entry(1, "b"), entry(1, "c")];
    node.handle_append_entries(append(1, (0, 0), entries.clone(), 0));
    // A shorter request, delayed on the way, takes nothing away.
    let response = answer(&node.handle_append_entries(append(1, (0, 0), entries[..1].to_vec(), 0)));
    assert_eq!(response.match_index, Some(1));
    node.handle_append_entries(append(1, (0, 0), entries, 0));
    assert_eq!(node.state.log.last_index(), 3);
}

#[test]
fn a_follower_applies_what_is_committed_in_order_and_once() {
    let mut node = RaftNode::new(2, vec![1, 2, 3]);
    let mut entries = vec![entry(1, "a"), entry(1, "b"), entry(1, "c")];
    entries.insert(1, LogEntry { term: 1, command: LogCommand::Noop });
    let actions = node.handle_append_entries(append(1, (0, 0), entries, 3));
    assert_eq!(applied(&actions), vec![1, 3]);
    assert_eq!(node.state.commit_index, 3);
    assert_eq!(node.state.last_applied, 3);
    // A commit index beyond the log counts up to its end.
    let actions = node.handle_append_entries(append(1, (4, 1), Vec::new(), 99));
    assert_eq!(applied(&actions), vec![4]);
    assert_eq!(node.state.commit_index, 4);
    let actions = node.handle_append_entries(append(1, (4, 1), Vec::new(), 2));
    assert_eq!(applied(&actions), Vec::<usize>::new());
    assert_eq!(node.state.commit_index, 4);
}

#[test]
fn a_leader_commits_only_entries_of_its_own_term() {
    let mut node = RaftNode::new(1, vec![1, 2, 3]);
    node.handle_append_entries(append(1, (0, 0), vec![entry(1, "old")], 0));
    while node.state.role == NodeRole::Follower {
        node.tick();
    }
    let term = node.state.current_term;
    assert_eq!(term, 2);
    node.handle_request_vote_response(2, RequestVoteResponse { term, vote_granted: true });
    assert_eq!(node.state.role, NodeRole::Leader);
    let held = |index: usize| AppendEntriesResponse { term, success: true, match_index: Some(index) };
    node.handle_append_entries_response(2, held(1));
    assert_eq!(node.state.commit_index, 0);
    node.propose(put("new", "1"));
    let actions = node.handle_append_entries_response(2, held(2));
    assert_eq!(node.state.commit_index, 2);
    assert_eq!(applied(&actions), vec![1, 2]);
}

#[test]
fn a_refusal_makes_the_leader_send_more() {
    let mut node = leader();
    for key in ["a", "b", "c"] {
        node.propose(put(key, "1"));
    }
    let held = |index: usize| AppendEntriesResponse { term: 1, success: true, match_index: Some(index) };
    node.handle_append_entries_response(3, held(3));
    assert_eq!(node.state.next_index, vec![(2, 1), (3, 4)]);

    // It goes back to the end of the other log, where that is earlier.
    let refused = AppendEntriesResponse { term: 1, success: false, match_index: Some(1) };
    assert!(node.handle_append_entries_response(3, refused).is_empty());
    assert_eq!(node.state.next_index, vec![(2, 1), (3, 2)]);

    // Where it is not, and without a hint, it goes back by one, down to the first entry.
    node.handle_append_entries_response(3, held(3));
    for hint in [None, Some(9), Some(usize::MAX)] {
        let before = node.state.next_index[1].1;
        let refused = AppendEntriesResponse { term: 1, success: false, match_index: hint };
        node.handle_append_entries_response(3, refused);
        assert_eq!(node.state.next_index, vec![(2, 1), (3, before - 1)]);
    }
    assert_eq!(node.state.next_index, vec![(2, 1), (3, 1)]);
    node.handle_append_entries_response(3, refused);
    assert_eq!(node.state.next_index, vec![(2, 1), (3, 1)]);

    // A node that is not of the cluster is not counted.
    let mut node = leader();
    node.propose(put("a", "1"));
    node.handle_append_entries_response(8, held(1));
    assert_eq!(node.state.commit_index, 0);
}

#[test]
fn an_answer_of_an_earlier_term_confirms_nothing() {
    let mut node = leader();
    node.propose(put("a", "1"));
    let stale = AppendEntriesResponse { term: 0, success: true, match_index: Some(1) };
    assert!(node.handle_append_entries_response(2, stale).is_empty());
    assert_eq!(node.state.commit_index, 0);
    assert_eq!(node.state.match_index, vec![(2, 0), (3, 0)]);
    assert_eq!(node.state.role, NodeRole::Leader);
}

#[test]
fn a_single_node_leads_and_commits_at_once() {
    let mut node = RaftNode::new(1, vec![1]);
    while node.state.role != NodeRole::Leader {
        assert!(node.tick().is_empty());
    }
    let actions = node.propose(put("a", "1")).unwrap();
    assert_eq!(applied(&actions), vec![1]);
    assert_eq!(node.state.commit_index, 1);
}

#[test]
fn majorities_grow_with_the_cluster() {
    for (size, majority) in [(1, 1), (2, 2), (3, 2), (4, 3), (5, 3), (6, 4)] {
        let state = RaftState::new(1, (1..=size).collect());
        assert_eq!(state.majority_count(), majority);
    }
}

#[test]
fn a_log_can_be_taken_apart_and_put_together() {
    let log = RaftLog::from_entries(vec![
        LogEntry { term: 0, command: LogCommand::Noop },
        entry(1, "a"),
        entry(3, "b"),
    ]);
    assert_eq!(log.len(), 2);
    assert_eq!(log.last_term(), 3);
    assert_eq!(log.entries_from(1).to_vec(), vec![entry(1, "a"), entry(3, "b")]);
    assert!(log.entries_from(3).is_empty());
    assert!(log.entries_from(77).is_empty());
    assert!(log.get(3).is_none());
}

/// A cluster of three nodes whose network loses, repeats and reorders messages.
struct Network {
    nodes: Vec<RaftNode>,
    in_flight: Vec<(u64, Action)>,
    seed: u64,
    leaders: Vec<(u64, u64)>,
}

impl Network {
    fn draw(&mut self, bound: u64) -> u64 {
        self.seed = self.seed.wrapping_mul(6364136223846793005).wrapping_add(1442695040888963407);
        (self.seed >> 33) % bound
    }

    fn send(&mut self, from: u64, actions: Vec<Action>) {
        for action in actions {
            if !matches!(&action, Action::ApplyEntry { .. }) && self.draw(10) > 0 {
                self.in_flight.push((from, action));
            }
        }
    }

    fn step(&mut self) {
        let at = self.draw(3) as usize;
        let id = at as u64 + 1;
        match self.draw(20) {
            0 => {
                let saved = self.nodes[at].persistent_state();
                self.nodes[at] = RaftNode::with_persistence(id, vec![1, 2, 3], Some(saved)).unwrap();
            }
            1..=6 => {
                let actions = self.nodes[at].tick();
                self.send(id, actions);
            }
            7 => {
                if let Some(actions) = self.nodes[at].propose(put("k", "v")) {
                    self.send(id, actions);
                }
            }
            _ => {
                if !self.in_flight.is_empty() {
                    let index = self.draw(self.in_flight.len() as u64) as usize;
                    let again = self.draw(8) == 0;
                    self.deliver(index, again);
                }
            }
        }
        for node in &self.nodes {
            let reign = (node.state.current_term, node.state.id);
            if node.state.role == NodeRole::Leader && !self.leaders.contains(&reign) {
                self.leaders.push(reign);
            }
        }
    }

    fn deliver(&mut self, index: usize, again: bool) {
        let (from, to, actions) = match &self.in_flight[index] {
            (from, Action::SendRequestVote { to, request }) => {
                (*from, *to, self.nodes[*to as usize - 1].handle_request_vote(*request))
            }
            (from, Action::SendRequestVoteResponse { to, response }) => {
                let node = &mut self.nodes[*to as usize - 1];
                (*from, *to, node.handle_request_vote_response(*from, *response))
            }
            (from, Action::SendAppendEntries { to, request }) => {
                (*from, *to, self.nodes[*to as usize - 1].handle_append_entries(request.clone()))
            }
            (from, Action::SendAppendEntriesResponse { to, response }) => {
                let node = &mut self.nodes[*to as usize - 1];
                (*from, *to, node.handle_append_entries_response(*from, *response))
            }
            (_, Action::ApplyEntry { .. }) => unreachable!(),
        };
        assert_ne!(from, to);
        if !again {
            self.in_flight.remove(index);
        }
        self.send(to, actions);
    }
}

#[test]
fn a_term_has_one_leader_and_logs_and_commits_match() {
    for seed in 1..=12 {
        let nodes = (1..=3).map(|id| RaftNode::new(id, vec![1, 2, 3])).collect();
        let mut network = Network { nodes, in_flight: Vec::new(), seed, leaders: Vec::new() };
        for _ in 0..4000 {
            network.step();
        }
        assert!(!network.leaders.is_empty());
        for (term, id) in &network.leaders {
            for (other_term, other_id) in &network.leaders {
                assert!(term != other_term || id == other_id);
            }
        }
        for node in &network.nodes {
            // The terms of a log go up to the term of the node at most.
            let log = &node.state.log;
            for index in 1..=log.last_index() {
                assert!(log.term_at(index - 1) <= log.term_at(index));
            }
            assert!(log.last_term() <= node.state.current_term);
        }
        for a in &network.nodes {
            for b in &network.nodes {
                // What both have committed is the same.
                let both = a.state.commit_index.min(b.state.commit_index);
                for index in 1..=both {
                    assert_eq!(a.state.log.get(index), b.state.log.get(index));
                }
                let shorter = a.state.log.last_index().min(b.state.log.last_index());
                let mut agreed = false;
                for index in (1..=shorter).rev() {
                    agreed = agreed || a.state.log.term_at(index) == b.state.log.term_at(index);
                    if agreed {
                        assert_eq!(a.state.log.get(index), b.state.log.get(index));
                    }
                }
            }
        }
    }
}

/// Hand every message among some actions to the node `to`, and give back what it answers.
fn carry(nodes: &mut [RaftNode], from: u64, to: u64, actions: &[Action]) -> Vec<Action> {
    let mut answers = Vec::new();
    let node = &mut nodes[to as usize - 1];
    for action in actions {
        match action {
            Action::SendRequestVote { to: receiver, request } if *receiver == to => {
                answers.extend(node.handle_request_vote(*request));
            }
            Action::SendRequestVoteResponse { to: receiver, response } if *receiver == to => {
                answers.extend(node.handle_request_vote_response(from, *response));
            }
            Action::SendAppendEntries { to: receiver, request } if *receiver == to => {
                answers.extend(node.handle_append_entries(request.clone()));
            }
            Action::SendAppendEntriesResponse { to: receiver, response } if *receiver == to => {
                answers.extend(node.handle_append_entries_response(from, *response));
            }
            _ => {}
        }
    }
    answers
}

fn run_for_leader(node: &mut RaftNode) -> Vec<Action> {
    let term = node.state.current_term;
    loop {
        let actions = node.tick();
        if node.state.current_term > term {
            return actions;
        }
    }
}

#[test]
fn what_is_committed_survives_a_change_of_leader() {
    let mut nodes: Vec<RaftNode> = (1..=3).map(|id| RaftNode::new(id, vec![1, 2, 3])).collect();

    // Node 1 leads, and commits two writes with node 2 alone.
    let asked = run_for_leader(&mut nodes[0]);
    let votes = carry(&mut nodes, 1, 2, &asked);
    carry(&mut nodes, 2, 1, &votes);
    assert_eq!(nodes[0].state.role, NodeRole::Leader);
    for key in ["a", "b"] {
        let sent = nodes[0].propose(put(key, "1")).unwrap();
        let held = carry(&mut nodes, 1, 2, &sent);
        carry(&mut nodes, 2, 1, &held);
    }
    assert_eq!(nodes[0].state.commit_index, 2);
    let committed: Vec<LogEntry> = nodes[0].state.log.entries_from(1).to_vec();

    // Node 1 falls silent. Node 3 lacks what is committed, and does not win.
    let asked = run_for_leader(&mut nodes[2]);
    let votes = carry(&mut nodes, 3, 2, &asked);
    carry(&mut nodes, 2, 3, &votes);
    assert_eq!(nodes[2].state.role, NodeRole::Candidate);

    // Node 2 has it, and wins.
    let asked = run_for_leader(&mut nodes[1]);
    let votes = carry(&mut nodes, 2, 3, &asked);
    let sent = carry(&mut nodes, 3, 2, &votes);
    assert_eq!(nodes[1].state.role, NodeRole::Leader);
    assert_eq!(nodes[1].state.log.entries_from(1).to_vec(), committed);

    // Node 3 catches up, and commits the same entries.
    let refused = carry(&mut nodes, 2, 3, &sent);
    carry(&mut nodes, 3, 2, &refused);
    let sent = nodes[1].propose(put("c", "1")).unwrap();
    let held = carry(&mut nodes, 2, 3, &sent);
    carry(&mut nodes, 3, 2, &held);
    assert_eq!(nodes[1].state.commit_index, 3);
    assert_eq!(nodes[2].state.log.entries_from(1)[..2].to_vec(), committed);

    // Node 1 comes back as it was saved, with all that it had committed.
    let saved = nodes[0].persistent_state();
    nodes[0] = RaftNode::with_persistence(1, vec![1, 2, 3], Some(saved)).unwrap();
    assert_eq!(nodes[0].state.log.entries_from(1).to_vec(), committed);
    let sent = nodes[1].tick();
    carry(&mut nodes, 2, 1, &sent);
    assert_eq!(nodes[0].state.log.last_index(), 3);
    assert_eq!(nodes[0].state.log.entries_from(1)[..2].to_vec(), committed);
    assert_eq!(nodes[0].state.commit_index, 3);
}

#[test]
fn a_follower_confirms_what_it_was_sent() {
    let mut node = RaftNode::new(2, vec![1, 2, 3]);
    let tail = vec![entry(1, "a"), entry(1, "b"), entry(1, "c")];
    node.handle_append_entries(append(1, (0, 0), tail, 0));
    // What lies past the entries that were sent is not confirmed.
    let response = answer(&node.handle_append_entries(append(2, (1, 1), Vec::new(), 0)));
    assert!(response.success);
    assert_eq!(response.match_index, Some(1));
    let response = answer(&node.handle_append_entries(append(2, (1, 1), vec![entry(1, "b")], 0)));
    assert_eq!(response.match_index, Some(2));
}

#[test]
fn an_uncommitted_tail_is_not_counted() {
    let mut nodes: Vec<RaftNode> = (1..=3).map(|id| RaftNode::new(id, vec![1, 2, 3])).collect();
    // Node 2 has entries of an earlier leader that nobody else has.
    let tail = vec![entry(1, "x"), entry(1, "y"), entry(1, "z")];
    nodes[1].handle_append_entries(append(1, (0, 0), tail, 0));
    nodes[0].handle_append_entries(append(1, (0, 0), Vec::new(), 0));

    let asked = run_for_leader(&mut nodes[0]);
    let votes = carry(&mut nodes, 1, 3, &asked);
    let sent = carry(&mut nodes, 3, 1, &votes);
    assert_eq!(nodes[0].state.role, NodeRole::Leader);
    let held = carry(&mut nodes, 1, 2, &sent);
    carry(&mut nodes, 2, 1, &held);
    nodes[0].propose(put("new", "1"));
    carry(&mut nodes, 2, 1, &held);
    assert_eq!(nodes[0].state.commit_index, 0);

    // Once node 2 has the entry, it is counted.
    let mut sent = Vec::new();
    while sent.is_empty() {
        sent = nodes[0].tick();
    }
    let held = carry(&mut nodes, 1, 2, &sent);
    carry(&mut nodes, 2, 1, &held);
    assert_eq!(nodes[0].state.commit_index, 1);
    assert_eq!(nodes[1].state.log.get(1), nodes[0].state.log.get(1));
    assert_eq!(nodes[1].state.log.last_index(), 1);
}

#[test]
fn a_refused_follower_catches_up() {
    // The logs are equally long and part after the first entry.
    let mut leader = RaftNode::new(1, vec![1, 2, 3]);
    let own = vec![entry(1, "a"), entry(3, "b"), entry(3, "c"), entry(3, "d")];
    leader.handle_append_entries(append(3, (0, 0), own.clone(), 0));
    run_for_leader(&mut leader);
    let vote = RequestVoteResponse { term: 4, vote_granted: true };
    let mut sent = leader.handle_request_vote_response(3, vote);
    assert_eq!(leader.state.role, NodeRole::Leader);
    let mut follower = RaftNode::new(2, vec![1, 2, 3]);
    let other = vec![entry(1, "a"), entry(2, "x"), entry(2, "y"), entry(2, "z")];
    follower.handle_append_entries(append(2, (0, 0), other, 0));

    let mut rounds = 0;
    loop {
        let request = match &sent[0] {
            Action::SendAppendEntries { to: 2, request } => request.clone(),
            other => panic!("unexpected {:?}", other),
        };
        let answers = follower.handle_append_entries(request);
        let response = match answers.last() {
            Some(Action::SendAppendEntriesResponse { response, .. }) => *response,
            other => panic!("unexpected {:?}", other),
        };
        leader.handle_append_entries_response(2, response);
        if response.success {
            break;
        }
        rounds += 1;
        assert!(rounds < 5);
        sent = leader.tick();
        while sent.is_empty() {
            sent = leader.tick();
        }
    }
    assert_eq!(rounds, 3);
    assert_eq!(follower.state.log.entries_from(1).to_vec(), own);
}
