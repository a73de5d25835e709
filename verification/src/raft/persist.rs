//! The part of a node's state that survives a restart.

use super::log::LogEntry;
use super::model::NodeView;
use super::state::StateView;
use vstd::prelude::*;

verus! {

/// The state that must be on stable storage before any message that depends on it is sent.
/// All other state is rebuilt after a restart.
#[derive(Debug)]
pub struct PersistentState {
    /// The latest term that the node has seen.
    pub current_term: u64,
    /// Whom the node voted for in that term.
    pub voted_for: Option<u64>,
    /// The whole log, sentinel first.
    pub log: Vec<LogEntry>,
}

/// What a [`PersistentState`] holds.
#[verifier::ext_equal]
pub struct PersistentView {
    pub current_term: u64,
    pub voted_for: Option<u64>,
    pub log: Seq<LogEntry>,
}

impl View for PersistentState {
    type V = PersistentView;

    open spec fn view(&self) -> PersistentView {
        PersistentView {
            current_term: self.current_term,
            voted_for: self.voted_for,
            log: self.log@,
        }
    }
}

/// Why a node cannot be rebuilt from what was saved.
#[derive(Debug, Clone, Copy, PartialEq, Eq, Structural)]
pub enum RecoveryError {
    /// The saved log lacks even its sentinel.
    MissingSentinel,
}

impl NodeView {
    /// What must survive a restart.
    pub open spec fn persistent(self) -> PersistentView {
        PersistentView {
            current_term: self.state.current_term,
            voted_for: self.state.voted_for,
            log: self.state.log,
        }
    }

    /// A node that starts from what an earlier run saved: all else is as on a fresh node.
    pub open spec fn recovered(id: u64, peers: Seq<u64>, saved: PersistentView) -> NodeView {
        let fresh = NodeView::fresh(id, peers);
        NodeView {
            state: StateView {
                current_term: saved.current_term,
                voted_for: saved.voted_for,
                log: saved.log,
                ..fresh.state
            },
            ..fresh
        }
    }
}

/// A node that restarts from what it saved has the term, the vote and the log that it had; the
/// rest of its state is that of a node that has never run.
pub proof fn law_restart_keeps_persistent_state(node: NodeView)
    requires
        node.wf(),
    ensures
        ({
            let restarted = NodeView::recovered(
                node.state.id,
                node.state.peers,
                node.persistent(),
            );
            let fresh = StateView::fresh(node.state.id, node.state.peers);
            &&& restarted.wf()
            &&& restarted.persistent() == node.persistent()
            &&& restarted.state.role == fresh.role
            &&& restarted.state.commit_index == 0
            &&& restarted.state.last_applied == 0
            &&& restarted.state.leader_id is None
            &&& restarted.state.next_index.len() == 0
            &&& restarted.state.match_index.len() == 0
        }),
{
}

} // verus!
