//! The mathematical model of a Raft node: what each message and each tick does to it.

use super::log::LogCommand;
use super::log::LogEntry;
use super::message::AppendEntriesResponse;
use super::message::AppendEntriesView;
use super::message::RequestVoteRequest;
use super::message::RequestVoteResponse;
use super::state::NodeRole;
use super::state::StateView;
use vstd::prelude::*;

verus! {

/// What an [`super::node::Action`] says.
#[verifier::ext_equal]
#[allow(inconsistent_fields)]
pub enum ActionView {
    SendRequestVote { to: u64, request: RequestVoteRequest },
    SendRequestVoteResponse { to: u64, response: RequestVoteResponse },
    SendAppendEntries { to: u64, request: AppendEntriesView },
    SendAppendEntriesResponse { to: u64, response: AppendEntriesResponse },
    ApplyEntry { index: usize, command: LogCommand },
}

/// The shortest election timeout, in ticks.
pub const ELECTION_TIMEOUT_MIN: u64 = 10;

/// The bound that every election timeout stays below, in ticks.
pub const ELECTION_TIMEOUT_MAX: u64 = 20;

/// How many ticks a leader lets pass between two heartbeats.
pub const HEARTBEAT_INTERVAL: u64 = 3;

/// The multiplier of the generator of election timeouts.
pub const SEED_MULTIPLIER: u64 = 6364136223846793005;

/// The increment of the generator of election timeouts.
pub const SEED_INCREMENT: u64 = 1442695040888963407;

/// What a [`super::node::RaftNode`] holds.
#[verifier::ext_equal]
pub struct NodeView {
    pub state: StateView,
    pub election_timeout: u64,
    pub election_timeout_duration: u64,
    pub heartbeat_timeout: u64,
    pub votes_received: Set<u64>,
    pub random_seed: u64,
}

/// The seed that follows `seed`, in 64-bit arithmetic that wraps.
#[verifier::opaque]
pub open spec fn next_seed(seed: u64) -> u64 {
    ((seed as nat * SEED_MULTIPLIER as nat + SEED_INCREMENT as nat) % 0x1_0000_0000_0000_0000) as u64
}

/// The timeout that a seed gives.
pub open spec fn timeout_of(seed: u64) -> u64 {
    (seed % ((ELECTION_TIMEOUT_MAX - ELECTION_TIMEOUT_MIN) as u64) + ELECTION_TIMEOUT_MIN) as u64
}

/// Where `progress` first tracks the node `id`: its length if it does not.
pub open spec fn position_of(progress: Seq<(u64, usize)>, id: u64) -> int
    decreases progress.len(),
{
    if progress.len() == 0 || progress[0].0 == id {
        0
    } else {
        1 + position_of(progress.skip(1), id)
    }
}

/// Whether `progress` tracks the node `id`.
pub open spec fn tracks(progress: Seq<(u64, usize)>, id: u64) -> bool {
    position_of(progress, id) < progress.len()
}

/// The index that `progress` has for the node `id`, which it tracks.
pub open spec fn progress_at(progress: Seq<(u64, usize)>, id: u64) -> usize {
    progress[position_of(progress, id)].1
}

/// `progress` with the index of the node `id` set, where it tracks that node.
pub open spec fn with_progress(progress: Seq<(u64, usize)>, id: u64, index: int) -> Seq<
    (u64, usize),
> {
    if tracks(progress, id) {
        progress.update(position_of(progress, id), (id, index as usize))
    } else {
        progress
    }
}

/// How many of the tracked nodes are known to hold the entry at `index`.
pub open spec fn holders(progress: Seq<(u64, usize)>, index: int) -> nat
    decreases progress.len(),
{
    if progress.len() == 0 {
        0
    } else {
        holders(progress.drop_last(), index) + (if progress.last().1 >= index {
            1nat
        } else {
            0nat
        })
    }
}

/// How many of the leading `entries` a log already holds from `start` on, judged by their terms.
pub open spec fn already_held(log: Seq<LogEntry>, start: int, entries: Seq<LogEntry>) -> int
    decreases entries.len(),
{
    if entries.len() == 0 || start >= log.len() || log[start].term != entries[0].term {
        0
    } else {
        1 + already_held(log, start + 1, entries.skip(1))
    }
}

/// The log of a follower that takes over `entries` from `start` on. What it already holds stays;
/// from the first entry that it lacks on, the leader's entries replace whatever is there.
pub open spec fn merged(log: Seq<LogEntry>, start: int, entries: Seq<LogEntry>) -> Seq<LogEntry> {
    let held = already_held(log, start, entries);
    if held == entries.len() {
        log
    } else {
        log.take(start + held) + entries.skip(held)
    }
}

/// The next index for a node that has refused what a leader sent from `next` on: one less, or the
/// end of the node's log where that is earlier still. The first entry is as early as can be.
pub open spec fn backed_up(next: usize, hint: Option<usize>) -> int {
    if next <= 1 {
        next as int
    } else {
        match hint {
            Some(index) => min(index + 1, next - 1),
            None => next - 1,
        }
    }
}

/// The actions that apply the entries after `from` up to `to`, in order, no-ops left out.
pub open spec fn apply_actions(log: Seq<LogEntry>, from: int, to: int) -> Seq<ActionView>
    decreases to - from,
{
    if to <= from {
        Seq::empty()
    } else {
        let front = apply_actions(log, from, to - 1);
        if 0 <= to < log.len() && !(log[to].command is Noop) {
            front.push(ActionView::ApplyEntry { index: to as usize, command: log[to].command })
        } else {
            front
        }
    }
}

/// The smaller of two numbers.
pub open spec fn min(a: int, b: int) -> int {
    if a <= b {
        a
    } else {
        b
    }
}

/// The larger of two numbers.
pub open spec fn max(a: int, b: int) -> int {
    if a >= b {
        a
    } else {
        b
    }
}

impl StateView {
    /// What a candidate asks of the other nodes.
    pub open spec fn vote_request(self) -> RequestVoteRequest {
        RequestVoteRequest {
            term: self.current_term,
            candidate_id: self.id,
            last_log_index: self.last_index() as usize,
            last_log_term: super::log::last_term_of(self.log),
        }
    }

    /// A vote request to every other node.
    pub open spec fn vote_requests(self) -> Seq<ActionView> {
        super::state::others(self.peers, self.id).map_values(
            |peer: u64| ActionView::SendRequestVote { to: peer, request: self.vote_request() },
        )
    }

    /// What a leader sends to a node whose next index is `next`: all it lacks, after the entry
    /// just before.
    pub open spec fn append_request(self, next: usize) -> AppendEntriesView {
        let prev: usize = if next > 0 {
            (next - 1) as usize
        } else {
            0
        };
        AppendEntriesView {
            term: self.current_term,
            leader_id: self.id,
            prev_log_index: prev,
            prev_log_term: super::log::term_of(self.log, prev as int),
            entries: super::log::suffix_of(self.log, next as int),
            leader_commit: self.commit_index,
        }
    }

    /// What a leader sends to the nodes of `peers`: to each other node that it tracks, all that
    /// the node lacks.
    pub open spec fn append_requests(self, peers: Seq<u64>) -> Seq<ActionView>
        decreases peers.len(),
    {
        if peers.len() == 0 {
            Seq::empty()
        } else {
            let front = self.append_requests(peers.drop_last());
            let peer = peers.last();
            if peer == self.id || !tracks(self.next_index, peer) {
                front
            } else {
                front.push(
                    ActionView::SendAppendEntries {
                        to: peer,
                        request: self.append_request(progress_at(self.next_index, peer)),
                    },
                )
            }
        }
    }

    /// Whether the leader may commit the entry at `index`: it is of the leader's own term, and a
    /// majority holds it, the leader included.
    pub open spec fn committable(self, index: int) -> bool {
        &&& super::log::term_of(self.log, index) == self.current_term
        &&& 1 + holders(self.match_index, index) >= self.majority()
    }

    /// The highest index up to `bound` that the leader may commit: the commit index if there is
    /// none above it.
    pub open spec fn highest_committable(self, bound: int) -> int
        decreases bound - self.commit_index,
    {
        if bound <= self.commit_index {
            self.commit_index as int
        } else if self.committable(bound) {
            bound
        } else {
            self.highest_committable(bound - 1)
        }
    }

    /// Commit up to `index`, and count what comes before as applied.
    pub open spec fn committed_to(self, index: int) -> StateView {
        StateView {
            commit_index: index as usize,
            last_applied: max(self.last_applied as int, index) as usize,
            ..self
        }
    }

    /// Commit all that may be committed.
    pub open spec fn with_commits(self) -> (StateView, Seq<ActionView>) {
        let index = self.highest_committable(self.last_index());
        if index > self.commit_index {
            (self.committed_to(index), apply_actions(self.log, self.last_applied as int, index))
        } else {
            (self, Seq::empty())
        }
    }

    /// A leader records up to which index a node has confirmed its entries.
    pub open spec fn recorded(self, from: u64, response: AppendEntriesResponse) -> StateView {
        match response.match_index {
            Some(index) => StateView {
                match_index: with_progress(self.match_index, from, index as int),
                next_index: with_progress(self.next_index, from, index + 1),
                ..self
            },
            None => self,
        }
    }

    /// A leader appends a command to its log.
    pub open spec fn with_entry(self, command: LogCommand) -> StateView {
        StateView {
            log: self.log.push(LogEntry { term: self.current_term, command }),
            ..self
        }
    }

    /// Whether a log that ends with the given term and index is at least as up to date as this
    /// node's: the later last term wins, and between equal terms the longer log.
    pub open spec fn is_up_to_date(self, last_log_term: u64, last_log_index: usize) -> bool {
        let own_term = super::log::last_term_of(self.log);
        last_log_term > own_term || (last_log_term == own_term && last_log_index
            >= self.last_index())
    }

    /// Whether this node grants its vote.
    pub open spec fn grants(self, request: RequestVoteRequest) -> bool {
        &&& request.term >= self.current_term
        &&& request.term > self.current_term || self.voted_for is None || self.voted_for == Some(
            request.candidate_id,
        )
        &&& self.is_up_to_date(request.last_log_term, request.last_log_index)
    }

    /// Whether this node takes the entries of a leader: the leader is not stale, and this node has
    /// an entry just before the new ones, of the term that the leader says.
    pub open spec fn accepts(self, request: AppendEntriesView) -> bool {
        &&& request.term >= self.current_term
        &&& request.prev_log_index <= self.last_index()
        &&& super::log::term_of(self.log, request.prev_log_index as int) == request.prev_log_term
    }
}

impl NodeView {
    /// The log has its sentinel.
    pub open spec fn wf(self) -> bool {
        self.state.wf()
    }

    /// A node of the given cluster that has never run.
    pub open spec fn fresh(id: u64, peers: Seq<u64>) -> NodeView {
        NodeView {
            state: StateView::fresh(id, peers),
            election_timeout: 0,
            election_timeout_duration: 0,
            heartbeat_timeout: HEARTBEAT_INTERVAL,
            votes_received: Set::empty(),
            random_seed: id,
        }.with_new_timeout()
    }

    /// The node with a newly drawn election timeout.
    pub open spec fn with_new_timeout(self) -> NodeView {
        let seed = next_seed(self.random_seed);
        NodeView {
            election_timeout: timeout_of(seed),
            election_timeout_duration: timeout_of(seed),
            random_seed: seed,
            ..self
        }
    }

    /// Run for leader. The only node of a cluster wins at once; any other asks for votes.
    pub open spec fn on_election(self) -> (NodeView, Seq<ActionView>) {
        let node = NodeView {
            state: self.state.as_candidate(),
            votes_received: set![self.state.id],
            ..self
        }.with_new_timeout();
        if self.state.peers.len() == 1 {
            (NodeView { state: node.state.as_leader(), ..node }, Seq::empty())
        } else {
            (node, node.state.vote_requests())
        }
    }

    /// Whether the next tick starts an election.
    pub open spec fn election_is_due(self) -> bool {
        self.state.role != NodeRole::Leader && self.election_timeout <= 1
    }

    /// The next tick does not take the node past the last term.
    pub open spec fn has_term_left(self) -> bool {
        self.election_is_due() ==> self.state.current_term < u64::MAX
    }

    /// One tick passes.
    pub open spec fn on_tick(self) -> (NodeView, Seq<ActionView>) {
        if self.election_is_due() {
            self.on_election()
        } else if self.state.role != NodeRole::Leader {
            (
                NodeView { election_timeout: (self.election_timeout - 1) as u64, ..self },
                Seq::empty(),
            )
        } else if self.heartbeat_timeout <= 1 {
            (
                NodeView { heartbeat_timeout: HEARTBEAT_INTERVAL, ..self },
                self.state.append_requests(self.state.peers),
            )
        } else {
            (
                NodeView { heartbeat_timeout: (self.heartbeat_timeout - 1) as u64, ..self },
                Seq::empty(),
            )
        }
    }

    /// A candidate asks for this node's vote.
    pub open spec fn on_request_vote(self, request: RequestVoteRequest) -> (
        NodeView,
        Seq<ActionView>,
    ) {
        let state = if request.term > self.state.current_term {
            self.state.as_follower(request.term)
        } else {
            self.state
        };
        let granted = self.state.grants(request);
        let node = if granted {
            NodeView {
                state: StateView { voted_for: Some(request.candidate_id), ..state },
                ..self
            }.with_new_timeout()
        } else {
            NodeView { state, ..self }
        };
        (
            node,
            seq![
                ActionView::SendRequestVoteResponse {
                    to: request.candidate_id,
                    response: RequestVoteResponse {
                        term: state.current_term,
                        vote_granted: granted,
                    },
                },
            ],
        )
    }

    /// A node answers this node's vote request.
    pub open spec fn on_request_vote_response(self, from: u64, response: RequestVoteResponse) -> (
        NodeView,
        Seq<ActionView>,
    ) {
        if response.term > self.state.current_term {
            (NodeView { state: self.state.as_follower(response.term), ..self }, Seq::empty())
        } else if self.state.role != NodeRole::Candidate || response.term
            < self.state.current_term {
            (self, Seq::empty())
        } else {
            let votes = if response.vote_granted {
                self.votes_received.insert(from)
            } else {
                self.votes_received
            };
            if votes.len() >= self.state.majority() {
                let state = self.state.as_leader();
                (
                    NodeView { state, votes_received: votes, heartbeat_timeout: 0, ..self },
                    state.append_requests(state.peers),
                )
            } else {
                (NodeView { votes_received: votes, ..self }, Seq::empty())
            }
        }
    }

    /// A leader sends entries to this node.
    pub open spec fn on_append_entries(self, request: AppendEntriesView) -> (
        NodeView,
        Seq<ActionView>,
    ) {
        if request.term < self.state.current_term {
            (self, seq![append_response(request.leader_id, self.state.current_term, false, None)])
        } else {
            let state = StateView {
                leader_id: Some(request.leader_id),
                ..self.state.as_follower(request.term)
            };
            if !self.state.accepts(request) {
                (
                    NodeView { state, ..self }.with_new_timeout(),
                    seq![
                        append_response(
                            request.leader_id,
                            request.term,
                            false,
                            Some(state.last_index() as usize),
                        ),
                    ],
                )
            } else {
                let state = StateView {
                    log: merged(state.log, request.prev_log_index + 1, request.entries),
                    ..state
                };
                let index = min(request.leader_commit as int, state.last_index());
                let response = append_response(
                    request.leader_id,
                    request.term,
                    true,
                    Some((request.prev_log_index + request.entries.len()) as usize),
                );
                if request.leader_commit > state.commit_index {
                    (
                        NodeView { state: state.committed_to(index), ..self }.with_new_timeout(),
                        apply_actions(state.log, state.last_applied as int, index).push(response),
                    )
                } else {
                    (NodeView { state, ..self }.with_new_timeout(), seq![response])
                }
            }
        }
    }

    /// A follower answers this node's entries.
    pub open spec fn on_append_entries_response(
        self,
        from: u64,
        response: AppendEntriesResponse,
    ) -> (NodeView, Seq<ActionView>) {
        if response.term > self.state.current_term {
            (NodeView { state: self.state.as_follower(response.term), ..self }, Seq::empty())
        } else if self.state.role != NodeRole::Leader {
            (self, Seq::empty())
        } else if response.success {
            if response.term == self.state.current_term {
                let (state, actions) = self.state.recorded(from, response).with_commits();
                (NodeView { state, ..self }, actions)
            } else {
                (self, Seq::empty())
            }
        } else {
            let next = backed_up(
                progress_at(self.state.next_index, from),
                response.match_index,
            );
            let state = StateView {
                next_index: with_progress(self.state.next_index, from, next),
                ..self.state
            };
            (NodeView { state, ..self }, Seq::empty())
        }
    }

    /// A client proposes a command to this node, which leads. The only node of a cluster commits
    /// the entry at once; any other first sends it to the other nodes.
    pub open spec fn on_propose(self, command: LogCommand) -> (NodeView, Seq<ActionView>) {
        let state = self.state.with_entry(command);
        let sent = state.append_requests(state.peers);
        if state.peers.len() == 1 {
            let (state, applied) = state.with_commits();
            (NodeView { state, ..self }, sent + applied)
        } else {
            (NodeView { state, ..self }, sent)
        }
    }
}

/// The answer to a leader.
pub open spec fn append_response(
    to: u64,
    term: u64,
    success: bool,
    match_index: Option<usize>,
) -> ActionView {
    ActionView::SendAppendEntriesResponse {
        to,
        response: AppendEntriesResponse { term, success, match_index },
    }
}

/// The first position of a tracked node is where a scan from the front finds it.
pub proof fn lemma_position(progress: Seq<(u64, usize)>, id: u64, at: int)
    requires
        0 <= at <= progress.len(),
        forall|i: int| 0 <= i < at ==> (#[trigger] progress[i]).0 != id,
        at < progress.len() ==> progress[at].0 == id,
    ensures
        position_of(progress, id) == at,
    decreases at,
{
    if at > 0 {
        assert(progress[0].0 != id);
        let rest = progress.skip(1);
        assert forall|i: int| 0 <= i < at - 1 implies (#[trigger] rest[i]).0 != id by {
            assert(rest[i] == progress[i + 1]);
        }
        lemma_position(rest, id, at - 1);
    }
}

/// The entries already held form a prefix of what the leader sends.
pub proof fn lemma_already_held(log: Seq<LogEntry>, start: int, entries: Seq<LogEntry>)
    ensures
        0 <= already_held(log, start, entries) <= entries.len(),
        start <= log.len() ==> start + already_held(log, start, entries) <= log.len(),
        start > log.len() ==> already_held(log, start, entries) == 0,
    decreases entries.len(),
{
    if entries.len() > 0 && start < log.len() && log[start].term == entries[0].term {
        lemma_already_held(log, start + 1, entries.skip(1));
    }
}

/// The first entry that is not held differs from what the log has in its place, if anything.
pub proof fn lemma_already_held_stops(log: Seq<LogEntry>, start: int, entries: Seq<LogEntry>)
    requires
        0 <= start,
    ensures
        ({
            let held = already_held(log, start, entries);
            0 <= held < entries.len() && start + held < log.len() ==> log[start + held].term
                != entries[held].term
        }),
    decreases entries.len(),
{
    if entries.len() > 0 && start < log.len() && log[start].term == entries[0].term {
        lemma_already_held(log, start + 1, entries.skip(1));
        lemma_already_held_stops(log, start + 1, entries.skip(1));
    }
}

/// Scanning on past an entry that is held counts that entry.
pub proof fn lemma_already_held_scan(log: Seq<LogEntry>, start: int, entries: Seq<LogEntry>, at: int)
    requires
        0 <= at <= entries.len(),
        0 <= start,
        forall|i: int|
            0 <= i < at ==> start + i < log.len() && log[start + i].term == (
            #[trigger] entries[i]).term,
        at < entries.len() ==> start + at >= log.len() || log[start + at].term
            != entries[at].term,
    ensures
        already_held(log, start, entries) == at,
    decreases at,
{
    if at > 0 {
        assert(log[start].term == entries[0].term);
        let rest = entries.skip(1);
        assert forall|i: int| 0 <= i < at - 1 implies start + 1 + i < log.len() && log[start + 1
            + i].term == (#[trigger] rest[i]).term by {
            assert(rest[i] == entries[i + 1]);
        }
        lemma_already_held_scan(log, start + 1, rest, at - 1);
    }
}

/// What a leader sends to replicate are append requests, each to another node that it tracks,
/// with all that this node lacks.
pub proof fn lemma_append_requests(state: StateView, peers: Seq<u64>, sent: ActionView)
    ensures
        state.append_requests(peers).contains(sent) ==> {
            &&& sent matches ActionView::SendAppendEntries { to, request }
            &&& peers.contains(to)
            &&& to != state.id
            &&& tracks(state.next_index, to)
            &&& request == state.append_request(progress_at(state.next_index, to))
        },
    decreases peers.len(),
{
    let front = state.append_requests(peers.drop_last());
    if peers.len() > 0 && state.append_requests(peers).contains(sent) {
        if front.contains(sent) {
            lemma_append_requests(state, peers.drop_last(), sent);
            let to = sent->SendAppendEntries_to;
            let i = choose|i: int| 0 <= i < peers.drop_last().len() && peers.drop_last()[i] == to;
            assert(peers[i] == to);
        } else {
            let all = state.append_requests(peers);
            let i = choose|i: int| 0 <= i < all.len() && all[i] == sent;
            if i < front.len() {
                assert(front[i] == sent);
            }
            assert(peers[peers.len() - 1] == peers.last());
        }
    }
}

/// What is applied are commands of the log, at the indices asked for.
pub proof fn lemma_apply_actions(log: Seq<LogEntry>, from: int, to: int, sent: ActionView)
    ensures
        apply_actions(log, from, to).contains(sent) ==> {
            &&& sent matches ActionView::ApplyEntry { index, command }
            &&& !(command is Noop)
            &&& exists|at: int|
                from < at <= to && 0 <= at < log.len() && index == at as usize && command
                    == #[trigger] log[at].command
        },
    decreases to - from,
{
    let all = apply_actions(log, from, to);
    if to > from && all.contains(sent) {
        let front = apply_actions(log, from, to - 1);
        if front.contains(sent) {
            lemma_apply_actions(log, from, to - 1, sent);
        } else {
            let i = choose|i: int| 0 <= i < all.len() && all[i] == sent;
            if i < front.len() {
                assert(front[i] == sent);
            }
            assert(log[to].command == log[to].command);
        }
    }
}

/// The highest committable index is committable if it is above the commit index, and no index
/// between it and the bound is.
pub proof fn lemma_highest_committable(state: StateView, bound: int)
    ensures
        ({
            let highest = state.highest_committable(bound);
            &&& state.commit_index <= highest <= max(bound, state.commit_index as int)
            &&& highest > state.commit_index ==> state.committable(highest)
            &&& forall|index: int|
                highest < index <= bound ==> !#[trigger] state.committable(index)
        }),
    decreases bound - state.commit_index,
{
    if bound > state.commit_index && !state.committable(bound) {
        lemma_highest_committable(state, bound - 1);
    }
}

} // verus!
