//! The remote calls that Raft nodes exchange.

use super::log::LogEntry;
use super::log::copy_entries;
use vstd::prelude::*;

verus! {

/// A candidate asks for a vote.
#[derive(Debug, Clone, Copy)]
pub struct RequestVoteRequest {
    /// The candidate's term.
    pub term: u64,
    /// Who asks.
    pub candidate_id: u64,
    /// Index of the last entry of the candidate's log.
    pub last_log_index: usize,
    /// Term of the last entry of the candidate's log.
    pub last_log_term: u64,
}

/// The answer to a vote request.
#[derive(Debug, Clone, Copy)]
pub struct RequestVoteResponse {
    /// The voter's term, from which a stale candidate learns that it is stale.
    pub term: u64,
    /// Whether the vote was granted.
    pub vote_granted: bool,
}

/// A leader replicates entries, or, with no entries, asserts its leadership.
#[derive(Debug)]
pub struct AppendEntriesRequest {
    /// The leader's term.
    pub term: u64,
    /// Who leads.
    pub leader_id: u64,
    /// Index of the entry just before the new ones.
    pub prev_log_index: usize,
    /// Term of the entry at `prev_log_index`.
    pub prev_log_term: u64,
    /// The new entries.
    pub entries: Vec<LogEntry>,
    /// The highest index that the leader knows to be committed.
    pub leader_commit: usize,
}

/// What an [`AppendEntriesRequest`] says.
#[verifier::ext_equal]
pub ghost struct AppendEntriesView {
    pub term: u64,
    pub leader_id: u64,
    pub prev_log_index: usize,
    pub prev_log_term: u64,
    pub entries: Seq<LogEntry>,
    pub leader_commit: usize,
}

impl View for AppendEntriesRequest {
    type V = AppendEntriesView;

    open spec fn view(&self) -> AppendEntriesView {
        AppendEntriesView {
            term: self.term,
            leader_id: self.leader_id,
            prev_log_index: self.prev_log_index,
            prev_log_term: self.prev_log_term,
            entries: self.entries@,
            leader_commit: self.leader_commit,
        }
    }
}

impl Clone for AppendEntriesRequest {
    fn clone(&self) -> (copy: Self)
        ensures
            copy@ == self@,
    {
        AppendEntriesRequest {
            term: self.term,
            leader_id: self.leader_id,
            prev_log_index: self.prev_log_index,
            prev_log_term: self.prev_log_term,
            entries: copy_entries(self.entries.as_slice()),
            leader_commit: self.leader_commit,
        }
    }
}

/// The answer to an [`AppendEntriesRequest`].
#[derive(Debug, Clone, Copy)]
pub struct AppendEntriesResponse {
    /// The follower's term, from which a stale leader learns that it is stale.
    pub term: u64,
    /// Whether the follower's log matched at the index before the new entries.
    pub success: bool,
    /// On success, up to which index the follower has what the leader sent; where the logs do not
    /// match, the end of the follower's log.
    pub match_index: Option<usize>,
}

} // verus!
