//! What holds of a Raft node whatever it is sent.

use super::log::LogCommand;
use super::log::LogEntry;
use super::message::AppendEntriesResponse;
use super::message::AppendEntriesView;
use super::message::RequestVoteRequest;
use super::message::RequestVoteResponse;
use super::model;
use super::model::ActionView;
use super::model::ELECTION_TIMEOUT_MAX;
use super::model::ELECTION_TIMEOUT_MIN;
use super::model::HEARTBEAT_INTERVAL;
use super::model::NodeView;
use super::state::NodeRole;
use super::state::StateView;
use vstd::prelude::*;

verus! {

/// Anything that can happen to a node.
#[allow(inconsistent_fields)]
pub enum Input {
    Tick,
    RequestVote { request: RequestVoteRequest },
    RequestVoteResponse { from: u64, response: RequestVoteResponse },
    AppendEntries { request: AppendEntriesView },
    AppendEntriesResponse { from: u64, response: AppendEntriesResponse },
    Propose { command: LogCommand },
    Restart,
}

impl NodeView {
    /// What an input does to a node, and what the node then asks for.
    pub open spec fn step(self, input: Input) -> (NodeView, Seq<ActionView>) {
        match input {
            Input::Tick => self.on_tick(),
            Input::RequestVote { request } => self.on_request_vote(request),
            Input::RequestVoteResponse { from, response } => self.on_request_vote_response(
                from,
                response,
            ),
            Input::AppendEntries { request } => self.on_append_entries(request),
            Input::AppendEntriesResponse { from, response } => self.on_append_entries_response(
                from,
                response,
            ),
            Input::Propose { command } => if self.state.role == NodeRole::Leader {
                self.on_propose(command)
            } else {
                (self, Seq::empty())
            },
            Input::Restart => (
                NodeView::recovered(self.state.id, self.state.peers, self.persistent()),
                Seq::empty(),
            ),
        }
    }

    /// The node can take the input within the limits of the machine: its term counter does not
    /// run out, its log stays as short as can be indexed, and no index that is confirmed to it is
    /// so large that the next one does not exist.
    pub open spec fn can_take(self, input: Input) -> bool {
        &&& self.wf()
        &&& self.state.log.len() <= usize::MAX
        &&& self.step(input).0.state.log.len() <= usize::MAX
        &&& input matches Input::AppendEntriesResponse { response, .. } ==> response.success
            && response.term == self.state.current_term ==> response.match_index
            != Some(usize::MAX)
        &&& input is Tick ==> self.has_term_left()
    }

    /// What is applied is committed, and what is committed is in the log.
    pub open spec fn indices_ordered(self) -> bool {
        self.state.last_applied <= self.state.commit_index <= self.state.last_index()
    }

    /// The input does not ask a follower to replace an entry that it has committed.
    pub open spec fn spares_committed(self, input: Input) -> bool {
        input matches Input::AppendEntries { request } ==> {
            let start = request.prev_log_index + 1;
            let held = model::already_held(self.state.log, start, request.entries);
            self.state.accepts(request) && held < request.entries.len() ==> start + held
                > self.state.commit_index
        }
    }
}

/// Whatever happens, a node keeps its ID, its cluster and its sentinel.
pub proof fn law_identity_is_kept(node: NodeView, input: Input)
    requires
        node.can_take(input),
    ensures
        node.step(input).0.state.id == node.state.id,
        node.step(input).0.state.peers == node.state.peers,
        node.step(input).0.wf(),
{
    if let Input::AppendEntries { request } = input {
        model::lemma_already_held(node.state.log, request.prev_log_index + 1, request.entries);
    }
}

/// Whatever happens, even a restart, the term of a node never decreases.
pub proof fn law_term_never_decreases(node: NodeView, input: Input)
    requires
        node.can_take(input),
    ensures
        node.step(input).0.state.current_term >= node.state.current_term,
{
}

/// Whatever happens, even a restart, a node that has voted in a term keeps that vote for as long
/// as it stays in the term.
pub proof fn law_one_vote_per_term(node: NodeView, input: Input)
    requires
        node.can_take(input),
        node.state.voted_for is Some,
        node.step(input).0.state.current_term == node.state.current_term,
    ensures
        node.step(input).0.state.voted_for == node.state.voted_for,
{
}

/// A node that grants a vote has recorded it for that candidate in that term before the answer
/// goes out.
pub proof fn law_granted_votes_are_recorded(
    node: NodeView,
    input: Input,
    to: u64,
    response: RequestVoteResponse,
)
    requires
        node.can_take(input),
        node.step(input).1.contains(ActionView::SendRequestVoteResponse { to, response }),
        response.vote_granted,
    ensures
        node.step(input).0.state.voted_for == Some(to),
        node.step(input).0.state.current_term == response.term,
{
    let sent = ActionView::SendRequestVoteResponse { to, response };
    lemma_where_actions_come_from(node, input, sent);
}

/// The state from which a node replicates when it takes an input.
pub open spec fn replicated_from(node: NodeView, input: Input) -> StateView {
    match input {
        Input::RequestVoteResponse { .. } => node.state.as_leader(),
        Input::Propose { command } => node.state.with_entry(command),
        _ => node.state,
    }
}

/// Votes are asked for only by a candidate that a tick has made, and granted only on request;
/// entries are sent only by a leader, from the log that it then has, and confirmed only by a node
/// that has accepted them.
pub proof fn lemma_where_actions_come_from(node: NodeView, input: Input, sent: ActionView)
    requires
        node.can_take(input),
        node.step(input).1.contains(sent),
    ensures
        sent is SendRequestVote ==> {
            let after = node.step(input).0.state;
            &&& input is Tick
            &&& after.role == NodeRole::Candidate
            &&& sent->SendRequestVote_request == after.vote_request()
        },
        sent is SendRequestVoteResponse ==> input is RequestVote,
        sent matches ActionView::SendAppendEntriesResponse { to, response } ==> response.success
            ==> {
            &&& input matches Input::AppendEntries { request }
            &&& node.state.accepts(request)
            &&& response.term == request.term
            &&& response.match_index == Some(
                (request.prev_log_index + request.entries.len()) as usize,
            )
        },
        sent is SendAppendEntries ==> {
            let state = replicated_from(node, input);
            let after = node.step(input).0.state;
            &&& input is Tick || input is RequestVoteResponse || input is Propose
            &&& state.append_requests(state.peers).contains(sent)
            &&& state.role == NodeRole::Leader
            &&& after.role == NodeRole::Leader
            &&& after.current_term == state.current_term
            &&& after.log == state.log
            &&& after.next_index == state.next_index
            &&& after.commit_index >= state.commit_index
        },
{
    let all = node.step(input).1;
    let i = choose|i: int| 0 <= i < all.len() && all[i] == sent;
    match input {
        Input::Tick => {
            model::lemma_append_requests(node.state, node.state.peers, sent);
            if node.election_is_due() {
                assert(all[i] is SendRequestVote);
            }
        },
        Input::RequestVoteResponse { from, response } => {
            let state = node.state.as_leader();
            model::lemma_append_requests(state, state.peers, sent);
        },
        Input::AppendEntries { request } => {
            assert(all[all.len() - 1] is SendAppendEntriesResponse);
            if i < all.len() - 1 {
                assert(all.drop_last()[i] == sent);
                let log = node.step(input).0.state.log;
                let index = model::min(request.leader_commit as int, log.len() - 1);
                let applied = model::apply_actions(log, node.state.last_applied as int, index);
                assert(all.drop_last() =~= applied);
                model::lemma_apply_actions(log, node.state.last_applied as int, index, sent);
            }
        },
        Input::AppendEntriesResponse { from, response } => {
            let state = node.state.recorded(from, response);
            model::lemma_apply_actions(
                state.log,
                state.last_applied as int,
                state.highest_committable(state.last_index()),
                sent,
            );
        },
        Input::Propose { command } => {
            let state = node.state.with_entry(command);
            let requests = state.append_requests(state.peers);
            model::lemma_highest_committable(state, state.last_index());
            model::lemma_append_requests(state, state.peers, sent);
            model::lemma_apply_actions(
                state.log,
                state.last_applied as int,
                state.highest_committable(state.last_index()),
                sent,
            );
            if i < requests.len() {
                assert(requests[i] == sent);
            } else {
                assert(state.with_commits().1[i - requests.len()] == sent);
            }
        },
        _ => {},
    }
}

/// A node that has granted its vote to one candidate refuses any other candidate of the term.
pub proof fn law_second_candidate_is_refused(
    node: NodeView,
    first: RequestVoteRequest,
    second: RequestVoteRequest,
)
    requires
        node.wf(),
        node.state.grants(first),
        second.term == first.term,
        second.candidate_id != first.candidate_id,
    ensures
        !node.on_request_vote(first).0.state.grants(second),
{
}

/// A message of a higher term makes a node adopt the term and follow, whatever its role. If the
/// message is an answer, nothing else happens.
pub proof fn law_higher_term_steps_down(node: NodeView, input: Input)
    requires
        node.can_take(input),
        match input {
            Input::RequestVote { request } => request.term > node.state.current_term,
            Input::AppendEntries { request } => request.term > node.state.current_term,
            Input::RequestVoteResponse { response, .. } => response.term > node.state.current_term,
            Input::AppendEntriesResponse { response, .. } => response.term
                > node.state.current_term,
            _ => false,
        },
    ensures
        node.step(input).0.state.role == NodeRole::Follower,
        match input {
            Input::RequestVote { request } => node.step(input).0.state.current_term
                == request.term,
            Input::AppendEntries { request } => node.step(input).0.state.current_term
                == request.term,
            Input::RequestVoteResponse { response, .. } => node.step(input) == (
                NodeView { state: node.state.as_follower(response.term), ..node },
                Seq::<ActionView>::empty(),
            ),
            Input::AppendEntriesResponse { response, .. } => node.step(input) == (
                NodeView { state: node.state.as_follower(response.term), ..node },
                Seq::<ActionView>::empty(),
            ),
            _ => true,
        },
{
}

/// A stale message, one of a lower term, changes neither the term, nor the vote, nor the log, nor
/// the role of a node, and a stale request is refused.
pub proof fn law_stale_requests_are_refused(node: NodeView, input: Input)
    requires
        node.can_take(input),
        match input {
            Input::RequestVote { request } => request.term < node.state.current_term,
            Input::AppendEntries { request } => request.term < node.state.current_term,
            _ => false,
        },
    ensures
        node.step(input).0 == node,
        node.step(input).1.len() == 1,
        match node.step(input).1[0] {
            ActionView::SendRequestVoteResponse { response, .. } => !response.vote_granted,
            ActionView::SendAppendEntriesResponse { response, .. } => !response.success,
            _ => false,
        },
{
}

/// A leader that goes on leading never removes or replaces an entry of its log.
pub proof fn law_leader_only_appends(node: NodeView, input: Input)
    requires
        node.can_take(input),
        node.state.role == NodeRole::Leader,
        node.step(input).0.state.role == NodeRole::Leader,
    ensures
        node.state.log.is_prefix_of(node.step(input).0.state.log),
{
    assert(node.state.log =~= node.step(input).0.state.log.take(node.state.log.len() as int));
}

/// As long as no leader contradicts what is committed, what is applied stays committed, what is
/// committed stays in the log unchanged, and neither index ever decreases while the node runs.
pub proof fn law_committed_entries_are_kept(node: NodeView, input: Input)
    requires
        node.can_take(input),
        node.indices_ordered(),
        node.spares_committed(input),
    ensures
        node.step(input).0.indices_ordered(),
        node.step(input).0.state.log.len() > node.state.commit_index,
        node.step(input).0.state.log.take(node.state.commit_index + 1) == node.state.log.take(
            node.state.commit_index + 1,
        ),
        !(input is Restart) ==> {
            &&& node.step(input).0.state.commit_index >= node.state.commit_index
            &&& node.step(input).0.state.last_applied >= node.state.last_applied
        },
{
    let kept = node.state.log.take(node.state.commit_index + 1);
    match input {
        Input::AppendEntries { request } => {
            let start = request.prev_log_index + 1;
            model::lemma_already_held(node.state.log, start, request.entries);
        },
        Input::AppendEntriesResponse { from, response } => {
            let state = node.state.recorded(from, response);
            model::lemma_highest_committable(state, state.last_index());
        },
        Input::Propose { command } => {
            let state = node.state.with_entry(command);
            model::lemma_highest_committable(state, state.last_index());
        },
        _ => {},
    }
    assert(node.step(input).0.state.log.take(node.state.commit_index + 1) =~= kept);
}

/// A leader advances its commit index only to an entry of its own term that a majority holds,
/// and, once it has recorded an answer of its term, to the highest such entry.
pub proof fn law_commit_needs_majority_and_own_term(node: NodeView, input: Input)
    requires
        node.can_take(input),
        node.state.role == NodeRole::Leader,
        node.step(input).0.state.role == NodeRole::Leader,
    ensures
        ({
            let after = node.step(input).0.state;
            &&& after.commit_index != node.state.commit_index ==> after.committable(
                after.commit_index as int,
            ) && node.state.commit_index < after.commit_index <= after.last_index()
            &&& input matches Input::AppendEntriesResponse { response, .. } ==> response.success
                && response.term == node.state.current_term ==> forall|index: int|
                after.commit_index < index <= after.last_index() ==> !#[trigger] after.committable(
                    index,
                )
        }),
{
    match input {
        Input::AppendEntriesResponse { from, response } => {
            let state = node.state.recorded(from, response);
            model::lemma_highest_committable(state, state.last_index());
            let after = node.step(input).0.state;
            assert forall|index: int|
                response.success && response.term == node.state.current_term && after.commit_index
                    < index <= after.last_index() implies !#[trigger] after.committable(index) by {
                assert(!state.committable(index));
            }
            if response.success && after.commit_index != node.state.commit_index {
                assert(state.committable(after.commit_index as int));
            }
        },
        Input::Propose { command } => {
            let state = node.state.with_entry(command);
            model::lemma_highest_committable(state, state.last_index());
            let after = node.step(input).0.state;
            if after.commit_index != node.state.commit_index {
                assert(state.committable(after.commit_index as int));
            }
        },
        _ => {},
    }
}

/// A node applies at once all that it knows to be committed.
pub proof fn law_what_is_committed_is_applied(node: NodeView, input: Input)
    requires
        node.can_take(input),
        node.indices_ordered(),
        node.spares_committed(input),
        node.state.last_applied == node.state.commit_index,
    ensures
        node.step(input).0.state.last_applied == node.step(input).0.state.commit_index,
{
    law_committed_entries_are_kept(node, input);
    match input {
        Input::AppendEntriesResponse { from, response } => {
            let state = node.state.recorded(from, response);
            model::lemma_highest_committable(state, state.last_index());
        },
        Input::Propose { command } => {
            let state = node.state.with_entry(command);
            model::lemma_highest_committable(state, state.last_index());
        },
        _ => {},
    }
}

/// The commands that a run of actions applies.
pub open spec fn applied_by(actions: Seq<ActionView>) -> Seq<ActionView>
    decreases actions.len(),
{
    if actions.len() == 0 {
        Seq::empty()
    } else if actions.last() is ApplyEntry {
        applied_by(actions.drop_last()).push(actions.last())
    } else {
        applied_by(actions.drop_last())
    }
}

/// Joined runs apply what each applies.
proof fn lemma_applied_add(front: Seq<ActionView>, back: Seq<ActionView>)
    ensures
        applied_by(front + back) == applied_by(front) + applied_by(back),
    decreases back.len(),
{
    if back.len() == 0 {
        assert(front + back =~= front);
    } else {
        lemma_applied_add(front, back.drop_last());
        assert((front + back).drop_last() =~= front + back.drop_last());
    }
}

/// A run without commands applies nothing.
proof fn lemma_applied_none(actions: Seq<ActionView>)
    requires
        forall|i: int| 0 <= i < actions.len() ==> !(#[trigger] actions[i] is ApplyEntry),
    ensures
        applied_by(actions) == Seq::<ActionView>::empty(),
    decreases actions.len(),
{
    if actions.len() > 0 {
        assert(!(actions[actions.len() - 1] is ApplyEntry));
        assert forall|i: int| 0 <= i < actions.drop_last().len() implies !(
        #[trigger] actions.drop_last()[i] is ApplyEntry) by {
            assert(actions.drop_last()[i] == actions[i]);
        }
        lemma_applied_none(actions.drop_last());
    }
}

/// A run of commands applies them all.
proof fn lemma_applied_all(log: Seq<LogEntry>, from: int, to: int)
    ensures
        applied_by(model::apply_actions(log, from, to)) == model::apply_actions(log, from, to),
    decreases to - from,
{
    if to > from {
        lemma_applied_all(log, from, to - 1);
        let front = model::apply_actions(log, from, to - 1);
        let all = model::apply_actions(log, from, to);
        if all != front {
            assert(all.drop_last() =~= front);
        }
    }
}

/// Replication applies nothing.
proof fn lemma_applied_by_requests(state: StateView, peers: Seq<u64>)
    ensures
        applied_by(state.append_requests(peers)) == Seq::<ActionView>::empty(),
{
    let sent = state.append_requests(peers);
    assert forall|i: int| 0 <= i < sent.len() implies !(#[trigger] sent[i] is ApplyEntry) by {
        model::lemma_append_requests(state, peers, sent[i]);
    }
    lemma_applied_none(sent);
}

/// While a node runs, it applies every entry of its log exactly once and in order: what a step
/// applies are the entries, no-ops left out, from the first that was not applied before it to the
/// last that is applied after it.
pub proof fn law_entries_are_applied_in_order(node: NodeView, input: Input)
    requires
        node.can_take(input),
        !(input is Restart),
    ensures
        applied_by(node.step(input).1) == model::apply_actions(
            node.step(input).0.state.log,
            node.state.last_applied as int,
            node.step(input).0.state.last_applied as int,
        ),
{
    let (after, actions) = node.step(input);
    let applied = model::apply_actions(
        after.state.log,
        node.state.last_applied as int,
        after.state.last_applied as int,
    );
    match input {
        Input::Tick => {
            lemma_applied_by_requests(node.state, node.state.peers);
            if node.election_is_due() {
                lemma_applied_none(actions);
            }
        },
        Input::RequestVote { request } => {
            lemma_applied_none(actions);
        },
        Input::RequestVoteResponse { from, response } => {
            let state = node.state.as_leader();
            lemma_applied_by_requests(state, state.peers);
        },
        Input::AppendEntries { request } => {
            lemma_applied_all(
                after.state.log,
                node.state.last_applied as int,
                after.state.last_applied as int,
            );
            assert(actions.drop_last() =~= applied);
        },
        Input::AppendEntriesResponse { from, response } => {
            let state = node.state.recorded(from, response);
            model::lemma_highest_committable(state, state.last_index());
            lemma_applied_all(
                after.state.log,
                node.state.last_applied as int,
                state.highest_committable(state.last_index()),
            );
        },
        Input::Propose { command } => {
            let state = node.state.with_entry(command);
            model::lemma_highest_committable(state, state.last_index());
            lemma_applied_by_requests(state, state.peers);
            lemma_applied_all(
                after.state.log,
                node.state.last_applied as int,
                state.highest_committable(state.last_index()),
            );
            lemma_applied_add(state.append_requests(state.peers), state.with_commits().1);
        },
        _ => {},
    }
}

/// The actions that apply a stretch of a log go up strictly by index, and every entry of the
/// stretch but a no-op has its action.
pub proof fn law_apply_actions_go_up(log: Seq<LogEntry>, from: int, to: int)
    requires
        0 <= from <= to < log.len(),
        log.len() <= usize::MAX,
    ensures
        ({
            let actions = model::apply_actions(log, from, to);
            &&& forall|i: int|
                0 <= i < actions.len() ==> (#[trigger] actions[i]) is ApplyEntry && from
                    < actions[i]->index <= to && actions[i]->command
                    == log[actions[i]->index as int].command
            &&& forall|i: int, j: int|
                #![trigger actions[i], actions[j]]
                0 <= i < j < actions.len() ==> actions[i]->index < actions[j]->index
            &&& forall|index: int|
                from < index <= to && !((#[trigger] log[index]).command is Noop)
                    ==> actions.contains(
                    ActionView::ApplyEntry { index: index as usize, command: log[index].command },
                )
        }),
    decreases to - from,
{
    let actions = model::apply_actions(log, from, to);
    if to > from {
        law_apply_actions_go_up(log, from, to - 1);
        let front = model::apply_actions(log, from, to - 1);
        assert forall|i: int| 0 <= i < actions.len() implies (#[trigger] actions[i]) is ApplyEntry
            && from < actions[i]->index <= to && actions[i]->command
            == log[actions[i]->index as int].command by {
            if i < front.len() {
                assert(actions[i] == front[i]);
            }
        }
        assert forall|i: int, j: int|
            #![trigger actions[i], actions[j]]
            0 <= i < j < actions.len() implies actions[i]->index < actions[j]->index by {
            assert(actions[i] == front[i]);
            if j < front.len() {
                assert(actions[j] == front[j]);
            }
        }
        assert forall|index: int|
            from < index <= to && !((#[trigger] log[index]).command is Noop) implies
            actions.contains(
            ActionView::ApplyEntry { index: index as usize, command: log[index].command },
        ) by {
            let action = ActionView::ApplyEntry {
                index: index as usize,
                command: log[index].command,
            };
            if index < to {
                let i = choose|i: int| 0 <= i < front.len() && front[i] == action;
                assert(actions[i] == action);
            } else {
                assert(actions[actions.len() - 1] == action);
            }
        }
    }
}

/// What is already held agrees in its terms with what the leader sent.
pub proof fn lemma_held_terms(log: Seq<LogEntry>, start: int, entries: Seq<LogEntry>, i: int)
    requires
        0 <= i < model::already_held(log, start, entries),
    ensures
        start + i < log.len(),
        log[start + i].term == entries[i].term,
    decreases entries.len(),
{
    model::lemma_already_held(log, start, entries);
    if i > 0 {
        lemma_held_terms(log, start + 1, entries.skip(1), i - 1);
        assert(entries.skip(1)[i - 1] == entries[i]);
    }
}

/// A follower that accepts entries keeps all entries before them and then has,
/// index by index, entries of the terms that the leader sent. From the first entry that it lacked
/// on, its log is exactly the leader's; if it lacked none, its log is unchanged.
pub proof fn law_accepted_entries_are_held(node: NodeView, request: AppendEntriesView)
    requires
        node.can_take(Input::AppendEntries { request }),
        node.state.accepts(request),
    ensures
        ({
            let log = node.state.log;
            let after = node.on_append_entries(request).0.state.log;
            let start = request.prev_log_index + 1;
            let held = model::already_held(log, start, request.entries);
            &&& after.len() >= start + request.entries.len()
            &&& after.take(start) == log.take(start)
            &&& forall|i: int|
                0 <= i < request.entries.len() ==> after[start + i].term == (
                #[trigger] request.entries[i]).term
            &&& held < request.entries.len() ==> after.skip(start + held) == request.entries.skip(
                held,
            )
            &&& held == request.entries.len() ==> after == log
        }),
{
    let log = node.state.log;
    let after = node.on_append_entries(request).0.state.log;
    let start = request.prev_log_index + 1;
    let held = model::already_held(log, start, request.entries);
    model::lemma_already_held(log, start, request.entries);
    assert(after.take(start) =~= log.take(start));
    assert forall|i: int| 0 <= i < request.entries.len() implies after[start + i].term == (
    #[trigger] request.entries[i]).term by {
        if i < held {
            lemma_held_terms(log, start, request.entries, i);
        } else {
            assert(request.entries.skip(held)[i - held] == request.entries[i]);
        }
    }
    if held < request.entries.len() {
        assert(after.skip(start + held) =~= request.entries.skip(held));
    }
}

/// A follower that has taken over a leader's entries answers the same entries with success again,
/// and its log does not change any more.
pub proof fn law_append_entries_is_idempotent(node: NodeView, request: AppendEntriesView)
    requires
        node.can_take(Input::AppendEntries { request }),
        node.state.accepts(request),
    ensures
        ({
            let after = node.on_append_entries(request).0;
            &&& after.state.accepts(request)
            &&& after.on_append_entries(request).0.state.log == after.state.log
        }),
{
    let log = node.state.log;
    let after = node.on_append_entries(request).0.state.log;
    let start = request.prev_log_index + 1;
    law_accepted_entries_are_held(node, request);
    assert(after[request.prev_log_index as int] == after.take(start)[start - 1]);
    assert(log[request.prev_log_index as int] == log.take(start)[start - 1]);
    model::lemma_already_held_scan(after, start, request.entries, request.entries.len() as int);
}

/// A leader whose entries a node has refused goes back to earlier entries for that node, unless it
/// is at the first entry already. Nothing else changes.
pub proof fn law_refused_leader_backs_up(node: NodeView, from: u64, response: AppendEntriesResponse)
    requires
        node.wf(),
        node.state.role == NodeRole::Leader,
        response.term <= node.state.current_term,
        !response.success,
        model::tracks(node.state.next_index, from),
        model::progress_at(node.state.next_index, from) > 1,
    ensures
        ({
            let before = model::progress_at(node.state.next_index, from);
            let (after, actions) = node.on_append_entries_response(from, response);
            let next = model::progress_at(after.state.next_index, from);
            &&& model::tracks(after.state.next_index, from)
            &&& 1 <= next < before
            &&& response.match_index matches Some(index) ==> next <= index + 1
            &&& after == (NodeView {
                state: StateView {
                    next_index: node.state.next_index.update(
                        model::position_of(node.state.next_index, from),
                        (from, next),
                    ),
                    ..node.state
                },
                ..node
            })
            &&& actions == Seq::<ActionView>::empty()
        }),
{
    let before = node.state.next_index;
    let after = node.on_append_entries_response(from, response).0.state.next_index;
    let at = model::position_of(before, from);
    lemma_position_is_first(before, from);
    assert forall|i: int| 0 <= i < at implies (#[trigger] after[i]).0 != from by {
        assert(after[i] == before[i]);
    }
    model::lemma_position(after, from, at);
}

/// What a leader sends to the node `id` next.
pub open spec fn next_request(leader: NodeView, id: u64) -> AppendEntriesView {
    leader.state.append_request(model::progress_at(leader.state.next_index, id))
}

/// What a node answers to a leader.
pub open spec fn answer_to(follower: NodeView, request: AppendEntriesView) -> AppendEntriesResponse {
    follower.on_append_entries(request).1.last()->SendAppendEntriesResponse_response
}

/// A leader and a follower after `rounds` rounds, in each of which the leader sends to the follower
/// `id` what it takes the follower to lack, and gets the answer.
pub open spec fn after_rounds(leader: NodeView, follower: NodeView, id: u64, rounds: nat) -> (
    NodeView,
    NodeView,
)
    decreases rounds,
{
    if rounds == 0 {
        (leader, follower)
    } else {
        let (l, f) = after_rounds(leader, follower, id, (rounds - 1) as nat);
        let request = next_request(l, id);
        (
            l.on_append_entries_response(id, answer_to(f, request)).0,
            f.on_append_entries(request).0,
        )
    }
}

/// The follower accepts what the leader sends after `rounds` rounds.
pub open spec fn is_accepted_after(
    leader: NodeView,
    follower: NodeView,
    id: u64,
    rounds: nat,
) -> bool {
    let (l, f) = after_rounds(leader, follower, id, rounds);
    f.state.accepts(next_request(l, id))
}

/// As long as the follower refuses, the leader leads on and comes nearer to its first entry, and
/// neither log changes.
proof fn lemma_refused_rounds(leader: NodeView, follower: NodeView, id: u64, rounds: nat)
    requires
        leader.wf(),
        follower.wf(),
        leader.state.role == NodeRole::Leader,
        model::tracks(leader.state.next_index, id),
        model::progress_at(leader.state.next_index, id) >= 1,
        follower.state.current_term <= leader.state.current_term,
        leader.state.log[0].term == follower.state.log[0].term,
        forall|r: nat| r < rounds ==> !#[trigger] is_accepted_after(leader, follower, id, r),
    ensures
        ({
            let (l, f) = after_rounds(leader, follower, id, rounds);
            let next = model::progress_at(l.state.next_index, id);
            &&& l.state == (StateView { next_index: l.state.next_index, ..leader.state })
            &&& model::tracks(l.state.next_index, id)
            &&& 1 <= next
            &&& next + rounds <= model::progress_at(leader.state.next_index, id)
            &&& f.state.log == follower.state.log
            &&& f.state.current_term <= leader.state.current_term
        }),
    decreases rounds,
{
    if rounds > 0 {
        let fewer = (rounds - 1) as nat;
        lemma_refused_rounds(leader, follower, id, fewer);
        assert(!is_accepted_after(leader, follower, id, fewer));
        let (l, f) = after_rounds(leader, follower, id, fewer);
        let request = next_request(l, id);
        let response = answer_to(f, request);
        assert(!response.success);
        assert(response.term <= l.state.current_term);
        if model::progress_at(l.state.next_index, id) == 1 {
            assert(request.prev_log_index == 0);
            assert(f.state.accepts(request));
        }
        law_refused_leader_backs_up(l, id, response);
    }
}

/// What a follower has once it accepts what the leader sends after `rounds` rounds: from the entry
/// on which the logs agreed, a log of the terms of the leader's, to the end of the leader's.
pub open spec fn is_caught_up_after(
    leader: NodeView,
    follower: NodeView,
    id: u64,
    rounds: nat,
) -> bool {
    let (l, f) = after_rounds(leader, follower, id, rounds);
    let request = next_request(l, id);
    let log = f.on_append_entries(request).0.state.log;
    &&& answer_to(f, request).success
    &&& log.len() >= leader.state.log.len()
    &&& forall|n: int|
        request.prev_log_index <= n < leader.state.log.len() ==> (#[trigger] log[n]).term
            == leader.state.log[n].term
}

/// A follower that refuses what a leader sends, wherever their logs have parted, comes to accept it
/// in fewer rounds than the leader's next index for it was, if nothing else happens: each refusal
/// brings the leader back, and at the latest the logs agree on the sentinel. Then it has the
/// leader's entries to the end.
pub proof fn law_refused_follower_catches_up(leader: NodeView, follower: NodeView, id: u64)
    requires
        leader.wf(),
        follower.wf(),
        leader.state.log.len() <= usize::MAX,
        follower.state.log.len() <= usize::MAX,
        leader.state.role == NodeRole::Leader,
        model::tracks(leader.state.next_index, id),
        1 <= model::progress_at(leader.state.next_index, id) <= leader.state.log.len(),
        follower.state.current_term <= leader.state.current_term,
        leader.state.log[0].term == follower.state.log[0].term,
    ensures
        exists|rounds: nat|
            rounds < model::progress_at(leader.state.next_index, id)
                && #[trigger] is_accepted_after(leader, follower, id, rounds)
                && is_caught_up_after(leader, follower, id, rounds),
{
    let bound = model::progress_at(leader.state.next_index, id) as nat;
    if forall|r: nat| r < bound ==> !#[trigger] is_accepted_after(leader, follower, id, r) {
        lemma_refused_rounds(leader, follower, id, bound);
    }
    let some = choose|r: nat| r < bound && #[trigger] is_accepted_after(leader, follower, id, r);
    let rounds = lemma_first_accepted(leader, follower, id, some);
    lemma_refused_rounds(leader, follower, id, rounds);
    let (l, f) = after_rounds(leader, follower, id, rounds);
    let request = next_request(l, id);
    let next = model::progress_at(l.state.next_index, id) as int;
    let own = f.state.log;
    model::lemma_already_held(own, next, request.entries);
    assert(request.entries =~= leader.state.log.skip(next)) by {
        if next == leader.state.log.len() {
            assert(leader.state.log.skip(next) =~= Seq::empty());
        }
    }
    law_accepted_entries_are_held(f, request);
    let log = f.on_append_entries(request).0.state.log;
    assert forall|n: int| request.prev_log_index <= n < leader.state.log.len() implies (
    #[trigger] log[n]).term == leader.state.log[n].term by {
        if n == request.prev_log_index {
            assert(log[n] == log.take(next)[n]);
            assert(own[n] == own.take(next)[n]);
        } else {
            assert(log[next + (n - next)].term == request.entries[n - next].term);
        }
    }
    assert(is_caught_up_after(leader, follower, id, rounds));
}

/// The first round in which a follower accepts.
proof fn lemma_first_accepted(leader: NodeView, follower: NodeView, id: u64, some: nat) -> (first: nat)
    requires
        is_accepted_after(leader, follower, id, some),
    ensures
        first <= some,
        is_accepted_after(leader, follower, id, first),
        forall|r: nat| r < first ==> !#[trigger] is_accepted_after(leader, follower, id, r),
    decreases some,
{
    if exists|r: nat| r < some && #[trigger] is_accepted_after(leader, follower, id, r) {
        let r = choose|r: nat| r < some && #[trigger] is_accepted_after(leader, follower, id, r);
        lemma_first_accepted(leader, follower, id, r)
    } else {
        some
    }
}

/// The position of a node is its first.
pub proof fn lemma_position_is_first(progress: Seq<(u64, usize)>, id: u64)
    ensures
        0 <= model::position_of(progress, id) <= progress.len(),
        model::tracks(progress, id) ==> progress[model::position_of(progress, id)].0 == id,
        forall|i: int|
            0 <= i < model::position_of(progress, id) ==> (#[trigger] progress[i]).0 != id,
    decreases progress.len(),
{
    if progress.len() > 0 && progress[0].0 != id {
        let rest = progress.skip(1);
        lemma_position_is_first(rest, id);
        assert forall|i: int|
            0 <= i < model::position_of(progress, id) implies (#[trigger] progress[i]).0 != id by {
            if i > 0 {
                assert(rest[i - 1] == progress[i]);
            }
        }
    }
}

/// The node after `count` ticks and nothing else.
pub open spec fn after_ticks(node: NodeView, count: nat) -> NodeView
    decreases count,
{
    if count == 0 {
        node
    } else {
        after_ticks(node, (count - 1) as nat).on_tick().0
    }
}

/// Every timeout that is drawn lies between the two bounds, the upper one excluded.
pub proof fn law_timeouts_are_in_range(node: NodeView)
    ensures
        ELECTION_TIMEOUT_MIN <= node.with_new_timeout().election_timeout < ELECTION_TIMEOUT_MAX,
        node.with_new_timeout().election_timeout_duration
            == node.with_new_timeout().election_timeout,
{
}

/// A node that does not lead and hears nothing waits out its timeout in silence; the last tick of
/// it starts an election in the next term.
pub proof fn law_silence_starts_an_election(node: NodeView, count: nat)
    requires
        node.wf(),
        node.state.role != NodeRole::Leader,
        node.state.current_term < u64::MAX,
        count < node.election_timeout,
    ensures
        after_ticks(node, count).state == node.state,
        after_ticks(node, count).election_timeout == node.election_timeout - count,
        count + 1 < node.election_timeout ==> after_ticks(node, count).on_tick().1.len() == 0,
        count + 1 == node.election_timeout ==> {
            let elected = after_ticks(node, count + 1).state;
            &&& elected.current_term == node.state.current_term + 1
            &&& elected.voted_for == Some(node.state.id)
            &&& node.state.peers.len() == 1 ==> elected.role == NodeRole::Leader
            &&& node.state.peers.len() != 1 ==> elected.role == NodeRole::Candidate
        },
    decreases count,
{
    if count > 0 {
        law_silence_starts_an_election(node, (count - 1) as nat);
    }
    assert(after_ticks(node, count + 1) == after_ticks(node, count).on_tick().0);
}

/// A leader sends heartbeats in at most as many ticks as the heartbeat interval, and goes on
/// leading.
pub proof fn law_leader_sends_heartbeats(node: NodeView)
    requires
        node.state.role == NodeRole::Leader,
        node.heartbeat_timeout <= HEARTBEAT_INTERVAL,
    ensures
        exists|count: nat|
            count < HEARTBEAT_INTERVAL && after_ticks(node, count).state == node.state && (
            #[trigger] after_ticks(node, count)).on_tick().1 == node.state.append_requests(
                node.state.peers,
            ),
{
    let count: nat = if node.heartbeat_timeout == 0 {
        0
    } else {
        (node.heartbeat_timeout - 1) as nat
    };
    reveal_with_fuel(after_ticks, 4);
    assert(after_ticks(node, count).heartbeat_timeout <= 1);
    assert(after_ticks(node, count).state == node.state);
}

} // verus!
