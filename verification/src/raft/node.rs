//! The Raft node: a pure state machine from messages and ticks to actions.

use super::log::LogCommand;
use super::log::LogEntry;
use super::log::RaftLog;
use super::log::copy_entries;
use super::message::AppendEntriesRequest;
use super::message::AppendEntriesResponse;
use super::message::RequestVoteRequest;
use super::message::RequestVoteResponse;
use super::model;
use super::model::ActionView;
use super::model::ELECTION_TIMEOUT_MAX;
use super::model::ELECTION_TIMEOUT_MIN;
use super::model::HEARTBEAT_INTERVAL;
use super::model::NodeView;
use super::model::SEED_INCREMENT;
use super::model::SEED_MULTIPLIER;
use super::persist::PersistentState;
use super::persist::RecoveryError;
use super::state::NodeRole;
use super::state::RaftState;
use super::state::StateView;
use std::collections::HashSet;
use vstd::prelude::*;
use vstd::slice::slice_subrange;

verus! {

broadcast use vstd::std_specs::hash::group_hash_axioms;

/// Something that the node wants done. The node itself sends nothing and writes nothing.
#[derive(Debug)]
#[allow(inconsistent_fields)]
pub enum Action {
    /// Ask a node for its vote.
    SendRequestVote { to: u64, request: RequestVoteRequest },
    /// Answer a candidate.
    SendRequestVoteResponse { to: u64, response: RequestVoteResponse },
    /// Replicate entries to a node.
    SendAppendEntries { to: u64, request: AppendEntriesRequest },
    /// Answer the leader.
    SendAppendEntriesResponse { to: u64, response: AppendEntriesResponse },
    /// Apply a committed command to the state machine.
    ApplyEntry { index: usize, command: LogCommand },
}

impl View for Action {
    type V = ActionView;

    open spec fn view(&self) -> ActionView {
        match *self {
            Action::SendRequestVote { to, request } => ActionView::SendRequestVote { to, request },
            Action::SendRequestVoteResponse { to, response } =>
                ActionView::SendRequestVoteResponse { to, response },
            Action::SendAppendEntries { to, request } =>
                ActionView::SendAppendEntries { to, request: request@ },
            Action::SendAppendEntriesResponse { to, response } =>
                ActionView::SendAppendEntriesResponse { to, response },
            Action::ApplyEntry { index, command } => ActionView::ApplyEntry { index, command },
        }
    }
}

/// What a run of actions says.
pub open spec fn action_views(actions: Seq<Action>) -> Seq<ActionView> {
    actions.map_values(|action: Action| action@)
}

/// The core Raft node. It takes messages and ticks, and gives back actions to perform.
pub struct RaftNode {
    /// All persistent and volatile Raft state.
    pub state: RaftState,
    /// Ticks that remain until an election starts.
    pub election_timeout: u64,
    /// The timeout that was drawn last.
    pub election_timeout_duration: u64,
    /// Ticks that remain until a leader sends the next heartbeat.
    pub heartbeat_timeout: u64,
    /// Who voted for this node in the current election.
    pub votes_received: HashSet<u64>,
    /// The state of the generator of election timeouts.
    pub random_seed: u64,
}

impl View for RaftNode {
    type V = NodeView;

    open spec fn view(&self) -> NodeView {
        NodeView {
            state: self.state@,
            election_timeout: self.election_timeout,
            election_timeout_duration: self.election_timeout_duration,
            heartbeat_timeout: self.heartbeat_timeout,
            votes_received: self.votes_received@,
            random_seed: self.random_seed,
        }
    }
}

/// Where `progress` first tracks the node `id`: its length if it does not.
fn find_progress(progress: &Vec<(u64, usize)>, id: u64) -> (at: usize)
    ensures
        at == model::position_of(progress@, id),
        at <= progress@.len(),
{
    let mut at: usize = 0;
    while at < progress.len() && progress[at].0 != id
        invariant
            at <= progress@.len(),
            forall|i: int| 0 <= i < at ==> (#[trigger] progress@[i]).0 != id,
        decreases progress@.len() - at,
    {
        at += 1;
    }
    proof {
        model::lemma_position(progress@, id, at as int);
    }
    at
}

/// Whether `progress` tracks the node `id`.
pub fn tracks_node(progress: &Vec<(u64, usize)>, id: u64) -> (known: bool)
    ensures
        known == model::tracks(progress@, id),
{
    find_progress(progress, id) < progress.len()
}

/// Set the index of the node `id`, where `progress` tracks that node.
fn set_progress(progress: &mut Vec<(u64, usize)>, id: u64, index: usize)
    ensures
        final(progress)@ == model::with_progress(old(progress)@, id, index as int),
{
    let at: usize = find_progress(progress, id);
    if at < progress.len() {
        progress[at] = (id, index);
    }
}

/// The next index for a node that has refused what was sent from `next` on.
fn back_up(next: usize, hint: Option<usize>) -> (earlier: usize)
    ensures
        earlier == model::backed_up(next, hint),
{
    if next <= 1 {
        return next;
    }
    match hint {
        Some(index) => if index < next - 1 {
            index + 1
        } else {
            next - 1
        },
        None => next - 1,
    }
}

/// How many of the tracked nodes are known to hold the entry at `index`.
fn count_holders(progress: &Vec<(u64, usize)>, index: usize) -> (count: usize)
    ensures
        count == model::holders(progress@, index as int),
{
    let mut count: usize = 0;
    let mut i: usize = 0;
    while i < progress.len()
        invariant
            i <= progress@.len(),
            count <= i,
            count == model::holders(progress@.take(i as int), index as int),
        decreases progress@.len() - i,
    {
        assert(progress@.take(i + 1).drop_last() =~= progress@.take(i as int));
        if progress[i].1 >= index {
            count += 1;
        }
        i += 1;
    }
    assert(progress@.take(i as int) =~= progress@);
    count
}

/// One more action at the end is one more view at the end.
proof fn lemma_views_push(actions: Seq<Action>, action: Action)
    ensures
        action_views(actions.push(action)) == action_views(actions).push(action@),
{
    assert(action_views(actions.push(action)) =~= action_views(actions).push(action@));
}

/// Joined actions have joined views.
proof fn lemma_views_add(front: Seq<Action>, back: Seq<Action>)
    ensures
        action_views(front + back) == action_views(front) + action_views(back),
{
    assert(action_views(front + back) =~= action_views(front) + action_views(back));
}

/// No actions have no views.
proof fn lemma_views_empty()
    ensures
        action_views(Seq::empty()) == Seq::<ActionView>::empty(),
{
    assert(action_views(Seq::empty()) =~= Seq::<ActionView>::empty());
}

/// To multiply and then to add, each time wrapping, is to wrap once at the end.
proof fn lemma_next_seed(seed: u64)
    ensures
        vstd::wrapping::u64_specs::wrapping_add(
            vstd::wrapping::u64_specs::wrapping_mul(seed, SEED_MULTIPLIER),
            SEED_INCREMENT,
        ) == model::next_seed(seed),
{
    let range: int = 0x1_0000_0000_0000_0000;
    let product: int = (seed as nat * SEED_MULTIPLIER as nat) as int;
    reveal(model::next_seed);
    let wrapped: int = product % range;
    vstd::arithmetic::div_mod::lemma_mod_bound(product, range);
    vstd::arithmetic::div_mod::lemma_add_mod_noop(product, SEED_INCREMENT as int, range);
    vstd::arithmetic::div_mod::lemma_small_mod(SEED_INCREMENT as nat, range as nat);
    let sum: int = wrapped + SEED_INCREMENT;
    assert((product + SEED_INCREMENT) % range == sum % range);
    if sum < range {
        vstd::arithmetic::div_mod::lemma_small_mod(sum as nat, range as nat);
    } else {
        vstd::arithmetic::div_mod::lemma_mod_add_multiples_vanish(sum - range, range);
        vstd::arithmetic::div_mod::lemma_small_mod((sum - range) as nat, range as nat);
    }
}

impl RaftNode {
    /// A new node of the cluster `peers`. It draws its timeouts from its ID.
    pub fn new(id: u64, peers: Vec<u64>) -> (node: Self)
        ensures
            node@ == NodeView::fresh(id, peers@),
            node@.wf(),
    {
        let mut node = RaftNode {
            state: RaftState::new(id, peers),
            election_timeout: 0,
            election_timeout_duration: 0,
            heartbeat_timeout: HEARTBEAT_INTERVAL,
            votes_received: HashSet::new(),
            random_seed: id,
        };
        node.reset_election_timeout();
        node
    }

    /// Draw a new election timeout.
    fn reset_election_timeout(&mut self)
        ensures
            final(self)@ == old(self)@.with_new_timeout(),
            final(self).state == old(self).state,
    {
        proof {
            lemma_next_seed(self.random_seed);
        }
        self.random_seed = self.random_seed.wrapping_mul(SEED_MULTIPLIER).wrapping_add(
            SEED_INCREMENT,
        );
        let range: u64 = ELECTION_TIMEOUT_MAX - ELECTION_TIMEOUT_MIN;
        let timeout: u64 = (self.random_seed % range) + ELECTION_TIMEOUT_MIN;
        self.election_timeout_duration = timeout;
        self.election_timeout = timeout;
    }

    /// Whether another tick can pass: not, if it starts an election and terms are used up.
    pub fn can_tick(&self) -> (can: bool)
        ensures
            can == self@.has_term_left(),
    {
        self.state.role == NodeRole::Leader || self.election_timeout > 1 || self.state.current_term
            < u64::MAX
    }

    /// Let one tick pass.
    pub fn tick(&mut self) -> (actions: Vec<Action>)
        requires
            old(self)@.wf(),
            old(self)@.has_term_left(),
        ensures
            final(self)@ == old(self)@.on_tick().0,
            action_views(actions@) == old(self)@.on_tick().1,
            final(self)@.wf(),
    {
        match self.state.role {
            NodeRole::Follower | NodeRole::Candidate => self.tick_election(),
            NodeRole::Leader => self.tick_heartbeat(),
        }
    }

    /// Count down to the next election.
    fn tick_election(&mut self) -> (actions: Vec<Action>)
        requires
            old(self)@.wf(),
            old(self)@.state.role != NodeRole::Leader,
            old(self)@.has_term_left(),
        ensures
            final(self)@ == old(self)@.on_tick().0,
            action_views(actions@) == old(self)@.on_tick().1,
            final(self)@.wf(),
    {
        if self.election_timeout > 0 {
            self.election_timeout -= 1;
        }
        if self.election_timeout > 0 {
            proof {
                lemma_views_empty();
            }
            return Vec::new();
        }
        self.start_election()
    }

    /// Count down to the next heartbeat.
    fn tick_heartbeat(&mut self) -> (actions: Vec<Action>)
        requires
            old(self)@.wf(),
            old(self)@.state.role == NodeRole::Leader,
        ensures
            final(self)@ == old(self)@.on_tick().0,
            action_views(actions@) == old(self)@.on_tick().1,
            final(self)@.wf(),
    {
        if self.heartbeat_timeout > 0 {
            self.heartbeat_timeout -= 1;
        }
        if self.heartbeat_timeout > 0 {
            proof {
                lemma_views_empty();
            }
            return Vec::new();
        }
        self.heartbeat_timeout = HEARTBEAT_INTERVAL;
        self.send_heartbeats()
    }

    /// Run for leader in the next term.
    fn start_election(&mut self) -> (actions: Vec<Action>)
        requires
            old(self)@.wf(),
            old(self)@.state.current_term < u64::MAX,
        ensures
            final(self)@ == old(self)@.on_election().0,
            action_views(actions@) == old(self)@.on_election().1,
            final(self)@.wf(),
    {
        self.state.become_candidate();
        self.votes_received.clear();
        self.votes_received.insert(self.state.id);
        assert(self.votes_received@ =~= set![self.state.id]);
        self.reset_election_timeout();

        let mut actions: Vec<Action> = Vec::new();
        if self.state.peers.len() == 1 {
            self.state.become_leader();
            proof {
                lemma_views_empty();
            }
            return actions;
        }
        let ghost state = self.state@;
        let mut i: usize = 0;
        while i < self.state.peers.len()
            invariant
                i <= self.state.peers@.len(),
                self.state@ == state,
                self.state.log.wf(),
                action_views(actions@) == super::state::others(
                    self.state.peers@.take(i as int),
                    self.state.id,
                ).map_values(
                    |peer: u64|
                        ActionView::SendRequestVote { to: peer, request: state.vote_request() },
                ),
            decreases self.state.peers@.len() - i,
        {
            let peer_id: u64 = self.state.peers[i];
            assert(self.state.peers@.take(i + 1).drop_last() =~= self.state.peers@.take(i as int));
            if peer_id != self.state.id {
                let action = Action::SendRequestVote {
                    to: peer_id,
                    request: RequestVoteRequest {
                        term: self.state.current_term,
                        candidate_id: self.state.id,
                        last_log_index: self.state.log.last_index(),
                        last_log_term: self.state.log.last_term(),
                    },
                };
                proof {
                    lemma_views_push(actions@, action);
                }
                actions.push(action);
            }
            i += 1;
            assert(action_views(actions@) =~= super::state::others(
                self.state.peers@.take(i as int),
                self.state.id,
            ).map_values(
                |peer: u64|
                    ActionView::SendRequestVote { to: peer, request: state.vote_request() },
            ));
        }
        assert(self.state.peers@.take(i as int) =~= self.state.peers@);
        actions
    }

    /// Send every other node what it lacks: nothing, to one that has it all.
    fn send_heartbeats(&self) -> (actions: Vec<Action>)
        requires
            self@.wf(),
        ensures
            action_views(actions@) == self@.state.append_requests(self@.state.peers),
    {
        self.replicate_to_all_peers()
    }

    /// Answer a candidate that asks for this node's vote.
    pub fn handle_request_vote(&mut self, request: RequestVoteRequest) -> (actions: Vec<Action>)
        requires
            old(self)@.wf(),
        ensures
            final(self)@ == old(self)@.on_request_vote(request).0,
            action_views(actions@) == old(self)@.on_request_vote(request).1,
            final(self)@.wf(),
    {
        let mut actions: Vec<Action> = Vec::new();
        if request.term < self.state.current_term {
            actions.push(
                Action::SendRequestVoteResponse {
                    to: request.candidate_id,
                    response: RequestVoteResponse {
                        term: self.state.current_term,
                        vote_granted: false,
                    },
                },
            );
            assert(action_views(actions@) =~= self@.on_request_vote(request).1);
            return actions;
        }
        if request.term > self.state.current_term {
            self.state.become_follower(request.term);
        }
        let can_vote: bool = match self.state.voted_for {
            None => true,
            Some(id) => id == request.candidate_id,
        };
        let own_last_term: u64 = self.state.log.last_term();
        let own_last_index: usize = self.state.log.last_index();
        let candidate_up_to_date: bool = request.last_log_term > own_last_term || (
        request.last_log_term == own_last_term && request.last_log_index >= own_last_index);
        let vote_granted: bool = can_vote && candidate_up_to_date;
        assert(vote_granted == old(self)@.state.grants(request));
        if vote_granted {
            self.state.voted_for = Some(request.candidate_id);
            self.reset_election_timeout();
        }
        actions.push(
            Action::SendRequestVoteResponse {
                to: request.candidate_id,
                response: RequestVoteResponse { term: self.state.current_term, vote_granted },
            },
        );
        assert(action_views(actions@) =~= old(self)@.on_request_vote(request).1);
        actions
    }

    /// Count an answer to this node's vote request, and lead once a majority has granted it.
    pub fn handle_request_vote_response(
        &mut self,
        from: u64,
        response: RequestVoteResponse,
    ) -> (actions: Vec<Action>)
        requires
            old(self)@.wf(),
        ensures
            final(self)@ == old(self)@.on_request_vote_response(from, response).0,
            action_views(actions@) == old(self)@.on_request_vote_response(from, response).1,
            final(self)@.wf(),
    {
        proof {
            lemma_views_empty();
        }
        if response.term > self.state.current_term {
            self.state.become_follower(response.term);
            return Vec::new();
        }
        if self.state.role != NodeRole::Candidate || response.term < self.state.current_term {
            return Vec::new();
        }
        if response.vote_granted {
            self.votes_received.insert(from);
        }
        if self.votes_received.len() >= self.state.majority_count() {
            self.state.become_leader();
            self.heartbeat_timeout = 0;
            return self.send_heartbeats();
        }
        Vec::new()
    }

    /// Send all other nodes that this node tracks what they lack.
    fn replicate_to_all_peers(&self) -> (actions: Vec<Action>)
        requires
            self@.wf(),
        ensures
            action_views(actions@) == self@.state.append_requests(self@.state.peers),
    {
        let mut actions: Vec<Action> = Vec::new();
        let mut i: usize = 0;
        proof {
            lemma_views_empty();
        }
        while i < self.state.peers.len()
            invariant
                i <= self.state.peers@.len(),
                action_views(actions@) == self@.state.append_requests(
                    self.state.peers@.take(i as int),
                ),
            decreases self.state.peers@.len() - i,
        {
            let peer_id: u64 = self.state.peers[i];
            assert(self.state.peers@.take(i + 1).drop_last() =~= self.state.peers@.take(i as int));
            if peer_id != self.state.id {
                if let Some(action) = self.replicate_to_peer(peer_id) {
                    proof {
                        lemma_views_push(actions@, action);
                    }
                    actions.push(action);
                }
            }
            i += 1;
        }
        assert(self.state.peers@.take(i as int) =~= self.state.peers@);
        actions
    }

    /// Send one node what it lacks: `None` if this node does not track it.
    fn replicate_to_peer(&self, peer_id: u64) -> (action: Option<Action>)
        ensures
            match action {
                Some(action) => model::tracks(self@.state.next_index, peer_id) && action@
                    == (ActionView::SendAppendEntries {
                    to: peer_id,
                    request: self@.state.append_request(
                        model::progress_at(self@.state.next_index, peer_id),
                    ),
                }),
                None => !model::tracks(self@.state.next_index, peer_id),
            },
    {
        let at: usize = find_progress(&self.state.next_index, peer_id);
        if at >= self.state.next_index.len() {
            return None;
        }
        let next: usize = self.state.next_index[at].1;
        let prev_log_index: usize = if next > 0 { next - 1 } else { 0 };
        let prev_log_term: u64 = self.state.log.term_at(prev_log_index);
        let entries: Vec<LogEntry> = copy_entries(self.state.log.entries_from(next));
        Some(
            Action::SendAppendEntries {
                to: peer_id,
                request: AppendEntriesRequest {
                    term: self.state.current_term,
                    leader_id: self.state.id,
                    prev_log_index,
                    prev_log_term,
                    entries,
                    leader_commit: self.state.commit_index,
                },
            },
        )
    }

    /// Take over the entries of a leader, and commit what the leader has committed.
    pub fn handle_append_entries(&mut self, request: AppendEntriesRequest) -> (actions: Vec<
        Action,
    >)
        requires
            old(self)@.wf(),
        ensures
            final(self)@ == old(self)@.on_append_entries(request@).0,
            action_views(actions@) == old(self)@.on_append_entries(request@).1,
            final(self)@.wf(),
    {
        let mut actions: Vec<Action> = Vec::new();
        if request.term < self.state.current_term {
            actions.push(
                Action::SendAppendEntriesResponse {
                    to: request.leader_id,
                    response: AppendEntriesResponse {
                        term: self.state.current_term,
                        success: false,
                        match_index: None,
                    },
                },
            );
            assert(action_views(actions@) =~= self@.on_append_entries(request@).1);
            return actions;
        }
        self.state.become_follower(request.term);
        self.state.leader_id = Some(request.leader_id);
        self.reset_election_timeout();

        let prev_term: u64 = self.state.log.term_at(request.prev_log_index);
        if request.prev_log_index > self.state.log.last_index() || prev_term
            != request.prev_log_term {
            actions.push(
                Action::SendAppendEntriesResponse {
                    to: request.leader_id,
                    response: AppendEntriesResponse {
                        term: self.state.current_term,
                        success: false,
                        match_index: Some(self.state.log.last_index()),
                    },
                },
            );
            assert(action_views(actions@) =~= old(self)@.on_append_entries(request@).1);
            return actions;
        }
        if !request.entries.is_empty() {
            self.take_over(request.prev_log_index + 1, &request.entries);
        }
        assert(self.state.log@ == model::merged(
            old(self)@.state.log,
            request.prev_log_index + 1,
            request.entries@,
        ));
        proof {
            model::lemma_already_held(
                old(self)@.state.log,
                request.prev_log_index + 1,
                request.entries@,
            );
        }
        let last: usize = self.state.log.last_index();
        let confirmed: usize = request.prev_log_index + request.entries.len();
        if request.leader_commit > self.state.commit_index {
            let new_commit: usize = if request.leader_commit <= last {
                request.leader_commit
            } else {
                last
            };
            actions = self.apply_committed_entries(new_commit);
        }
        let response = Action::SendAppendEntriesResponse {
            to: request.leader_id,
            response: AppendEntriesResponse {
                term: self.state.current_term,
                success: true,
                match_index: Some(confirmed),
            },
        };
        proof {
            lemma_views_push(actions@, response);
        }
        actions.push(response);
        assert(action_views(actions@) =~= old(self)@.on_append_entries(request@).1);
        actions
    }

    /// Take over a leader's entries from the index `start` on.
    fn take_over(&mut self, start: usize, entries: &Vec<LogEntry>)
        requires
            old(self)@.wf(),
            1 <= start <= old(self)@.state.log.len(),
        ensures
            final(self)@ == (NodeView {
                state: StateView {
                    log: model::merged(old(self)@.state.log, start as int, entries@),
                    ..old(self)@.state
                },
                ..old(self)@
            }),
            final(self)@.wf(),
    {
        let ghost log = self.state.log@;
        let mut held: usize = 0;
        while held < entries.len() && start <= self.state.log.last_index() && held
            <= self.state.log.last_index() - start && self.state.log.term_at(start + held)
            == entries[held].term
            invariant
                self.state.log@ == log,
                self.state.log.wf(),
                1 <= start <= log.len(),
                held <= entries@.len(),
                forall|i: int|
                    0 <= i < held ==> start + i < log.len() && log[start + i].term == (
                    #[trigger] entries@[i]).term,
            decreases entries@.len() - held,
        {
            held += 1;
        }
        proof {
            model::lemma_already_held_scan(log, start as int, entries@, held as int);
        }
        if held < entries.len() {
            proof {
                model::lemma_already_held(log, start as int, entries@);
            }
            self.state.log.truncate_from(start + held);
            assert(self.state.log@ =~= log.take(start + held));
            let new_entries: Vec<LogEntry> = copy_entries(
                slice_subrange(entries.as_slice(), held, entries.len()),
            );
            self.state.log.append_entries(new_entries);
            assert(entries@.subrange(held as int, entries@.len() as int) =~= entries@.skip(
                held as int,
            ));
        }
    }

    /// Commit up to `new_commit_index`, and apply in order what was not yet applied.
    fn apply_committed_entries(&mut self, new_commit_index: usize) -> (actions: Vec<Action>)
        requires
            old(self)@.wf(),
        ensures
            final(self)@ == (NodeView {
                state: old(self)@.state.committed_to(new_commit_index as int),
                ..old(self)@
            }),
            action_views(actions@) == model::apply_actions(
                old(self)@.state.log,
                old(self)@.state.last_applied as int,
                new_commit_index as int,
            ),
            final(self)@.wf(),
    {
        let mut actions: Vec<Action> = Vec::new();
        let ghost before = self@;
        proof {
            lemma_views_empty();
        }
        while self.state.last_applied < new_commit_index
            invariant
                self.state.last_applied <= model::max(
                    before.state.last_applied as int,
                    new_commit_index as int,
                ),
                self.state.last_applied >= before.state.last_applied,
                self@ == (NodeView {
                    state: StateView {
                        last_applied: self.state.last_applied,
                        ..before.state
                    },
                    ..before
                }),
                action_views(actions@) == model::apply_actions(
                    before.state.log,
                    before.state.last_applied as int,
                    self.state.last_applied as int,
                ),
            decreases new_commit_index - self.state.last_applied,
        {
            self.state.last_applied += 1;
            let index: usize = self.state.last_applied;
            if let Some(entry) = self.state.log.get(index) {
                match &entry.command {
                    LogCommand::Noop => {},
                    command => {
                        let action = Action::ApplyEntry { index, command: command.clone() };
                        proof {
                            lemma_views_push(actions@, action);
                        }
                        actions.push(action);
                    },
                }
            }
        }
        self.state.commit_index = new_commit_index;
        assert(model::apply_actions(
            before.state.log,
            before.state.last_applied as int,
            new_commit_index as int,
        ) == action_views(actions@));
        actions
    }

    /// Record a follower's answer, and commit what a majority now holds. An answer of an earlier
    /// term confirms nothing; a refusal makes the leader go back to earlier entries.
    pub fn handle_append_entries_response(
        &mut self,
        from: u64,
        response: AppendEntriesResponse,
    ) -> (actions: Vec<Action>)
        requires
            old(self)@.wf(),
            old(self)@.state.role == NodeRole::Leader && response.success && response.term
                == old(self)@.state.current_term && model::tracks(
                old(self)@.state.next_index,
                from,
            ) ==> response.match_index != Some(usize::MAX),
        ensures
            final(self)@ == old(self)@.on_append_entries_response(from, response).0,
            action_views(actions@) == old(self)@.on_append_entries_response(from, response).1,
            final(self)@.wf(),
    {
        proof {
            lemma_views_empty();
        }
        if response.term > self.state.current_term {
            self.state.become_follower(response.term);
            return Vec::new();
        }
        if self.state.role != NodeRole::Leader {
            return Vec::new();
        }
        let at: usize = find_progress(&self.state.next_index, from);
        if response.success {
            if response.term < self.state.current_term {
                return Vec::new();
            }
            if let Some(match_index) = response.match_index {
                set_progress(&mut self.state.match_index, from, match_index);
                if at < self.state.next_index.len() {
                    self.state.next_index[at] = (from, match_index + 1);
                }
            }
            return self.maybe_advance_commit_index();
        }
        if at < self.state.next_index.len() {
            let next: usize = self.state.next_index[at].1;
            let earlier: usize = back_up(next, response.match_index);
            self.state.next_index[at] = (from, earlier);
        }
        Vec::new()
    }

    /// Commit the highest entry of the current term that a majority holds, and all before it.
    fn maybe_advance_commit_index(&mut self) -> (actions: Vec<Action>)
        requires
            old(self)@.wf(),
        ensures
            final(self)@ == (NodeView {
                state: old(self)@.state.with_commits().0,
                ..old(self)@
            }),
            action_views(actions@) == old(self)@.state.with_commits().1,
            final(self)@.wf(),
    {
        proof {
            lemma_views_empty();
        }
        let commit: usize = self.state.commit_index;
        let majority: usize = self.state.majority_count();
        let mut highest: usize = commit;
        let mut index: usize = commit;
        let last: usize = self.state.log.last_index();
        while index < last
            invariant
                self@ == old(self)@,
                commit == self@.state.commit_index,
                last == self@.state.last_index(),
                majority == self@.state.majority(),
                index <= model::max(last as int, commit as int),
                commit <= highest <= index,
                highest == self@.state.highest_committable(index as int),
            decreases last - index,
        {
            index += 1;
            if self.state.log.term_at(index) == self.state.current_term && count_holders(
                &self.state.match_index,
                index,
            ) >= majority - 1 {
                highest = index;
            }
        }
        if highest > commit {
            assert(index == last);
            return self.apply_committed_entries(highest);
        }
        Vec::new()
    }

    /// Propose a command to the cluster: `None` if this node does not lead.
    ///
    /// The command is appended to the log and sent to the other nodes. It is safe only once it is
    /// applied; the only node of a cluster is its own majority and applies it at once.
    pub fn propose(&mut self, command: LogCommand) -> (actions: Option<Vec<Action>>)
        requires
            old(self)@.wf(),
        ensures
            final(self)@.wf(),
            match actions {
                Some(actions) => {
                    &&& old(self)@.state.role == NodeRole::Leader
                    &&& final(self)@ == old(self)@.on_propose(command).0
                    &&& action_views(actions@) == old(self)@.on_propose(command).1
                },
                None => old(self)@.state.role != NodeRole::Leader && final(self)@ == old(self)@,
            },
    {
        if self.state.role != NodeRole::Leader {
            return None;
        }
        let entry = LogEntry { term: self.state.current_term, command };
        self.state.log.append(entry);
        let mut actions: Vec<Action> = self.replicate_to_all_peers();
        if self.state.peers.len() == 1 {
            let mut applied: Vec<Action> = self.maybe_advance_commit_index();
            proof {
                lemma_views_add(actions@, applied@);
            }
            actions.append(&mut applied);
        }
        Some(actions)
    }
}

impl RaftNode {
    /// A node that starts from what an earlier run saved, or, where nothing was saved, afresh.
    pub fn with_persistence(id: u64, peers: Vec<u64>, saved: Option<PersistentState>) -> (node:
        Result<Self, RecoveryError>)
        ensures
            match node {
                Ok(node) => {
                    &&& saved is None ==> node@ == NodeView::fresh(id, peers@)
                    &&& saved matches Some(saved) ==> saved@.log.len() >= 1 && node@
                        == NodeView::recovered(id, peers@, saved@)
                    &&& node@.wf()
                },
                Err(error) => {
                    &&& error == RecoveryError::MissingSentinel
                    &&& saved matches Some(saved)
                    &&& saved@.log.len() == 0
                },
            },
    {
        let mut node = RaftNode::new(id, peers);
        if let Some(saved) = saved {
            if saved.log.len() == 0 {
                return Err(RecoveryError::MissingSentinel);
            }
            node.state.current_term = saved.current_term;
            node.state.voted_for = saved.voted_for;
            node.state.log = RaftLog::from_entries(saved.log);
        }
        Ok(node)
    }

    /// What must be saved before the actions that this node has asked for are performed.
    pub fn persistent_state(&self) -> (saved: PersistentState)
        requires
            self@.wf(),
        ensures
            saved@ == self@.persistent(),
    {
        PersistentState {
            current_term: self.state.current_term,
            voted_for: self.state.voted_for,
            log: copy_entries(self.state.log.entries_from(0)),
        }
    }
}

} // verus!
