//! The state of a Raft node and its changes of role.

use super::log::LogEntry;
use super::log::RaftLog;
use vstd::prelude::*;

verus! {

/// The role that a node plays.
///
/// Every node starts as a follower. One that hears nothing from a leader becomes a candidate,
/// a candidate with a majority of the votes becomes the leader, and a node that discovers a
/// higher term becomes a follower again.
#[derive(Debug, Clone, Copy, PartialEq, Eq, Structural)]
pub enum NodeRole {
    Follower,
    Candidate,
    Leader,
}

/// The state of a Raft node.
pub struct RaftState {
    /// This node's ID.
    pub id: u64,
    /// The IDs of all nodes of the cluster, this one included.
    pub peers: Vec<u64>,
    /// The latest term that this node has seen. Must survive a restart.
    pub current_term: u64,
    /// Whom this node voted for in the current term. Must survive a restart.
    pub voted_for: Option<u64>,
    /// The replicated log. Must survive a restart.
    pub log: RaftLog,
    /// The highest index known to be committed.
    pub commit_index: usize,
    /// The highest index applied to the state machine.
    pub last_applied: usize,
    /// On a leader: for each other node, the next index to send to it.
    pub next_index: Vec<(u64, usize)>,
    /// On a leader: for each other node, the highest index known to be replicated there.
    pub match_index: Vec<(u64, usize)>,
    /// The current role.
    pub role: NodeRole,
    /// The leader, where it is known.
    pub leader_id: Option<u64>,
}

/// What a [`RaftState`] holds.
#[verifier::ext_equal]
pub ghost struct StateView {
    pub id: u64,
    pub peers: Seq<u64>,
    pub current_term: u64,
    pub voted_for: Option<u64>,
    pub log: Seq<LogEntry>,
    pub commit_index: usize,
    pub last_applied: usize,
    pub next_index: Seq<(u64, usize)>,
    pub match_index: Seq<(u64, usize)>,
    pub role: NodeRole,
    pub leader_id: Option<u64>,
}

impl View for RaftState {
    type V = StateView;

    open spec fn view(&self) -> StateView {
        StateView {
            id: self.id,
            peers: self.peers@,
            current_term: self.current_term,
            voted_for: self.voted_for,
            log: self.log@,
            commit_index: self.commit_index,
            last_applied: self.last_applied,
            next_index: self.next_index@,
            match_index: self.match_index@,
            role: self.role,
            leader_id: self.leader_id,
        }
    }
}

/// The nodes of `peers` but `own_id`, in the order of `peers`.
pub open spec fn others(peers: Seq<u64>, own_id: u64) -> Seq<u64>
    decreases peers.len(),
{
    if peers.len() == 0 {
        Seq::empty()
    } else if peers.last() == own_id {
        others(peers.drop_last(), own_id)
    } else {
        others(peers.drop_last(), own_id).push(peers.last())
    }
}

/// `(id, index)` for every node of `peers` but `own_id`, in the order of `peers`.
pub open spec fn progress_of_others(peers: Seq<u64>, own_id: u64, index: usize) -> Seq<
    (u64, usize),
> {
    others(peers, own_id).map_values(|peer: u64| (peer, index))
}

impl StateView {
    /// The log has its sentinel.
    pub open spec fn wf(self) -> bool {
        self.log.len() >= 1
    }

    /// The index of the last entry of the log.
    pub open spec fn last_index(self) -> int {
        self.log.len() - 1
    }

    /// How many nodes make a majority.
    pub open spec fn majority(self) -> int {
        self.peers.len() as int / 2 + 1
    }

    /// A node of the given cluster that has never run.
    pub open spec fn fresh(id: u64, peers: Seq<u64>) -> StateView {
        StateView {
            id,
            peers,
            current_term: 0,
            voted_for: None,
            log: super::log::empty_log(),
            commit_index: 0,
            last_applied: 0,
            next_index: Seq::empty(),
            match_index: Seq::empty(),
            role: NodeRole::Follower,
            leader_id: None,
        }
    }

    /// Step down on a message of `term`: a higher term is adopted, and with it comes a new vote.
    pub open spec fn as_follower(self, term: u64) -> StateView {
        StateView {
            current_term: if term > self.current_term {
                term
            } else {
                self.current_term
            },
            voted_for: if term > self.current_term {
                None
            } else {
                self.voted_for
            },
            role: NodeRole::Follower,
            next_index: Seq::empty(),
            match_index: Seq::empty(),
            ..self
        }
    }

    /// Run for leader in the next term, with one's own vote.
    pub open spec fn as_candidate(self) -> StateView {
        StateView {
            current_term: (self.current_term + 1) as u64,
            role: NodeRole::Candidate,
            voted_for: Some(self.id),
            leader_id: None,
            ..self
        }
    }

    /// Lead: assume of every other node that it has the whole log, and know of none of its
    /// entries that it is there.
    pub open spec fn as_leader(self) -> StateView {
        StateView {
            role: NodeRole::Leader,
            leader_id: Some(self.id),
            next_index: progress_of_others(self.peers, self.id, self.log.len() as usize),
            match_index: progress_of_others(self.peers, self.id, 0),
            ..self
        }
    }
}

/// `(id, index)` for every node of `peers` but `own_id`, in the order of `peers`.
fn progress_for_others(peers: &Vec<u64>, own_id: u64, index: usize) -> (progress: Vec<(u64, usize)>)
    ensures
        progress@ == progress_of_others(peers@, own_id, index),
{
    let mut progress: Vec<(u64, usize)> = Vec::new();
    let mut i: usize = 0;
    while i < peers.len()
        invariant
            i <= peers@.len(),
            progress@ == progress_of_others(peers@.take(i as int), own_id, index),
        decreases peers@.len() - i,
    {
        assert(peers@.take(i + 1).drop_last() =~= peers@.take(i as int));
        if peers[i] != own_id {
            progress.push((peers[i], index));
        }
        assert(progress@ =~= progress_of_others(peers@.take(i + 1), own_id, index));
        i += 1;
    }
    assert(peers@.take(i as int) =~= peers@);
    progress
}

impl RaftState {
    /// A new node: a follower of term 0 with an empty log.
    pub fn new(id: u64, peers: Vec<u64>) -> (state: Self)
        ensures
            state@ == StateView::fresh(id, peers@),
            state@.wf(),
    {
        RaftState {
            id,
            peers,
            current_term: 0,
            voted_for: None,
            log: RaftLog::new(),
            commit_index: 0,
            last_applied: 0,
            next_index: Vec::new(),
            match_index: Vec::new(),
            role: NodeRole::Follower,
            leader_id: None,
        }
    }

    /// Become a follower, on a message of the given term.
    pub fn become_follower(&mut self, term: u64)
        ensures
            final(self)@ == old(self)@.as_follower(term),
    {
        if term > self.current_term {
            self.current_term = term;
            self.voted_for = None;
        }
        self.role = NodeRole::Follower;
        self.next_index.clear();
        self.match_index.clear();
    }

    /// Become a candidate in the next term, and vote for oneself.
    pub fn become_candidate(&mut self)
        requires
            old(self).current_term < u64::MAX,
        ensures
            final(self)@ == old(self)@.as_candidate(),
            final(self).current_term == old(self).current_term + 1,
    {
        self.current_term += 1;
        self.role = NodeRole::Candidate;
        self.voted_for = Some(self.id);
        self.leader_id = None;
    }

    /// Become the leader, and start to track every other node.
    pub fn become_leader(&mut self)
        requires
            old(self).log.wf(),
        ensures
            final(self)@ == old(self)@.as_leader(),
    {
        self.role = NodeRole::Leader;
        self.leader_id = Some(self.id);
        let next: usize = self.log.last_index() + 1;
        self.next_index = progress_for_others(&self.peers, self.id, next);
        self.match_index = progress_for_others(&self.peers, self.id, 0);
    }

    /// How many nodes make a majority: 2 of 3, 3 of 5.
    pub fn majority_count(&self) -> (count: usize)
        ensures
            count == self@.majority(),
    {
        self.peers.len() / 2 + 1
    }
}

/// Any two majorities of a cluster overlap.
pub proof fn law_majorities_overlap(state: StateView, a: Set<u64>, b: Set<u64>)
    requires
        a.finite(),
        b.finite(),
        a.subset_of(state.peers.to_set()),
        b.subset_of(state.peers.to_set()),
        a.len() >= state.majority(),
        b.len() >= state.majority(),
    ensures
        exists|voter: u64| a.contains(voter) && b.contains(voter),
{
    let all = state.peers.to_set();
    state.peers.lemma_cardinality_of_set();
    if a.disjoint(b) {
        vstd::set_lib::lemma_set_disjoint_lens(a, b);
        assert(a.union(b).subset_of(all));
        vstd::set_lib::lemma_len_subset(a.union(b), all);
        assert(false);
    }
    let voter = choose|voter: u64| a.contains(voter) && b.contains(voter);
    assert(a.contains(voter) && b.contains(voter));
}

} // verus!
