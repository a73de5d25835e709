//! What holds of a whole cluster of Raft nodes over an unreliable network.

use super::laws;
use super::laws::Input;
use super::log::LogCommand;
use super::log::LogEntry;
use super::message::AppendEntriesView;
use super::model;
use super::model::ActionView;
use super::model::NodeView;
use super::state;
use super::state::NodeRole;
use super::state::StateView;
use vstd::prelude::*;

verus! {

/// A cluster at one moment: its nodes, and every message that was ever sent. A message may be
/// delivered late, more than once, or never.
pub struct System {
    pub nodes: Map<u64, NodeView>,
    pub sent: Set<(u64, ActionView)>,
}

/// To whom an action sends a message, if it does.
pub open spec fn recipient(action: ActionView) -> Option<u64> {
    match action {
        ActionView::SendRequestVote { to, .. } => Some(to),
        ActionView::SendRequestVoteResponse { to, .. } => Some(to),
        ActionView::SendAppendEntries { to, .. } => Some(to),
        ActionView::SendAppendEntriesResponse { to, .. } => Some(to),
        ActionView::ApplyEntry { .. } => None,
    }
}

/// What the recipient of a message from `from` takes in.
pub open spec fn delivered(from: u64, action: ActionView) -> Input {
    match action {
        ActionView::SendRequestVote { request, .. } => Input::RequestVote { request },
        ActionView::SendRequestVoteResponse { response, .. } => Input::RequestVoteResponse {
            from,
            response,
        },
        ActionView::SendAppendEntries { request, .. } => Input::AppendEntries { request },
        ActionView::SendAppendEntriesResponse { response, .. } => Input::AppendEntriesResponse {
            from,
            response,
        },
        ActionView::ApplyEntry { command, .. } => Input::Propose { command },
    }
}

impl System {
    /// All nodes of the cluster `peers` start afresh, and nothing was sent yet.
    pub open spec fn initial(self, peers: Seq<u64>) -> bool {
        &&& self.nodes.dom() == peers.to_set()
        &&& forall|id: u64| #[trigger]
            self.nodes.contains_key(id) ==> self.nodes[id] == NodeView::fresh(id, peers)
        &&& self.sent == Set::<(u64, ActionView)>::empty()
    }

    /// The input reaches the node `id`: time passes, a client proposes, the node restarts from
    /// what it saved, or a message that was sent to it arrives.
    pub open spec fn reaches(self, id: u64, input: Input) -> bool {
        match input {
            Input::Tick => true,
            Input::Propose { .. } => true,
            Input::Restart => true,
            _ => exists|from: u64, action: ActionView| #[trigger]
                self.sent.contains((from, action)) && recipient(action) == Some(id) && input
                    == delivered(from, action),
        }
    }

    /// The node `id` takes an input, and nothing else happens. The node has saved its state before
    /// its messages go out.
    pub open spec fn takes(self, id: u64, input: Input, next: System) -> bool {
        &&& self.nodes.contains_key(id)
        &&& self.nodes[id].can_take(input)
        &&& self.reaches(id, input)
        &&& next.nodes == self.nodes.insert(id, self.nodes[id].step(input).0)
        &&& next.sent == self.sent.union(
            Set::new(
                |packet: (u64, ActionView)|
                    packet.0 == id && self.nodes[id].step(input).1.contains(packet.1),
            ),
        )
    }
}

/// After the moment `k` one node takes one input.
pub open spec fn is_step(run: Seq<System>, k: int) -> bool {
    exists|id: u64, input: Input| #[trigger] run[k].takes(id, input, run[k + 1])
}

/// A run of a cluster: it starts afresh, and from one moment to the next one node takes one input.
pub open spec fn is_run(run: Seq<System>, peers: Seq<u64>) -> bool {
    &&& run.len() > 0
    &&& run[0].initial(peers)
    &&& forall|k: int| 0 <= k < run.len() - 1 ==> #[trigger] is_step(run, k)
}

/// The node `voter` had voted for `candidate` in `term` at some moment of the run up to `k`.
pub open spec fn has_voted(run: Seq<System>, k: int, voter: u64, term: u64, candidate: u64) -> bool {
    exists|j: int| 0 <= j <= k && #[trigger] votes_at(run, j, voter, term, candidate)
}

/// The node `voter` is in `term` at the moment `j` and has its vote recorded for `candidate`.
pub open spec fn votes_at(run: Seq<System>, j: int, voter: u64, term: u64, candidate: u64) -> bool {
    &&& run[j].nodes.contains_key(voter)
    &&& run[j].nodes[voter].state.current_term == term
    &&& run[j].nodes[voter].state.voted_for == Some(candidate)
}

/// The node `id` leads in `term` at the moment `k`.
pub open spec fn leads(run: Seq<System>, k: int, id: u64, term: u64) -> bool {
    &&& run[k].nodes.contains_key(id)
    &&& run[k].nodes[id].state.role == NodeRole::Leader
    &&& run[k].nodes[id].state.current_term == term
}

/// Every node knows who it is and which cluster it belongs to.
pub open spec fn identities(system: System, peers: Seq<u64>) -> bool {
    &&& system.nodes.dom() == peers.to_set()
    &&& forall|id: u64| #[trigger]
        system.nodes.contains_key(id) ==> {
            &&& system.nodes[id].state.id == id
            &&& system.nodes[id].state.peers == peers
            &&& system.nodes[id].wf()
        }
}

pub proof fn lemma_identities(run: Seq<System>, peers: Seq<u64>, k: int)
    requires
        is_run(run, peers),
        0 <= k < run.len(),
    ensures
        identities(run[k], peers),
    decreases k,
{
    if k > 0 {
        lemma_identities(run, peers, k - 1);
        let before = run[k - 1];
        assert(is_step(run, k - 1));
        let (id, input) = choose|id: u64, input: Input| #[trigger]
            before.takes(id, input, run[k - 1 + 1]);
        laws::law_identity_is_kept(before.nodes[id], input);
        assert(run[k].nodes.dom() =~= before.nodes.dom());
        assert forall|other: u64| #[trigger] run[k].nodes.contains_key(other) implies {
            &&& run[k].nodes[other].state.id == other
            &&& run[k].nodes[other].state.peers == peers
            &&& run[k].nodes[other].wf()
        } by {
            assert(before.nodes.contains_key(other));
        }
    }
}

/// From one moment to a later one the term of a node does not decrease, and within a term a vote
/// stays.
pub proof fn lemma_votes_stay(run: Seq<System>, peers: Seq<u64>, j: int, k: int, voter: u64)
    requires
        is_run(run, peers),
        0 <= j <= k < run.len(),
        run[j].nodes.contains_key(voter),
    ensures
        run[k].nodes.contains_key(voter),
        run[k].nodes[voter].state.current_term >= run[j].nodes[voter].state.current_term,
        run[k].nodes[voter].state.current_term == run[j].nodes[voter].state.current_term
            && run[j].nodes[voter].state.voted_for is Some ==> run[k].nodes[voter].state.voted_for
            == run[j].nodes[voter].state.voted_for,
    decreases k - j,
{
    if j < k {
        lemma_votes_stay(run, peers, j, k - 1, voter);
        let before = run[k - 1];
        assert(is_step(run, k - 1));
        let (id, input) = choose|id: u64, input: Input| #[trigger]
            before.takes(id, input, run[k - 1 + 1]);
        laws::law_term_never_decreases(before.nodes[id], input);
        if before.nodes[id].state.voted_for is Some && before.nodes[id].step(
            input,
        ).0.state.current_term == before.nodes[id].state.current_term {
            laws::law_one_vote_per_term(before.nodes[id], input);
        }
    }
}

/// In a run, a node votes for at most one candidate in a term, however often it restarts.
pub proof fn law_one_vote_per_term_in_a_run(
    run: Seq<System>,
    peers: Seq<u64>,
    k: int,
    voter: u64,
    term: u64,
    first: u64,
    second: u64,
)
    requires
        is_run(run, peers),
        0 <= k < run.len(),
        has_voted(run, k, voter, term, first),
        has_voted(run, k, voter, term, second),
    ensures
        first == second,
{
    let i = choose|i: int| 0 <= i <= k && #[trigger] votes_at(run, i, voter, term, first);
    let j = choose|j: int| 0 <= j <= k && #[trigger] votes_at(run, j, voter, term, second);
    if i <= j {
        lemma_votes_stay(run, peers, i, j, voter);
    } else {
        lemma_votes_stay(run, peers, j, i, voter);
    }
}

/// Every granted vote in the network was recorded by its sender, and every vote that a candidate
/// or leader counts was cast for it in its term.
pub open spec fn votes_are_cast(run: Seq<System>, peers: Seq<u64>, k: int) -> bool {
    &&& forall|from: u64, action: ActionView| #[trigger]
        run[k].sent.contains((from, action)) ==> is_recorded(run, peers, k, from, action)
    &&& forall|id: u64| #[trigger]
        run[k].nodes.contains_key(id) && run[k].nodes[id].state.role != NodeRole::Follower ==> {
            let node = run[k].nodes[id];
            &&& node.votes_received.finite()
            &&& forall|voter: u64| #[trigger]
                node.votes_received.contains(voter) ==> peers.contains(voter) && has_voted(
                    run,
                    k,
                    voter,
                    node.state.current_term,
                    id,
                )
            &&& node.state.role == NodeRole::Leader ==> node.votes_received.len()
                >= node.state.majority()
        }
}

/// The action is no granted vote, or its sender has recorded the vote.
pub open spec fn is_recorded(run: Seq<System>, peers: Seq<u64>, k: int, from: u64, action: ActionView) -> bool {
    action matches ActionView::SendRequestVoteResponse { to, response } ==> response.vote_granted
        ==> peers.contains(from) && has_voted(run, k, from, response.term, to)
}

pub proof fn lemma_votes_are_cast(run: Seq<System>, peers: Seq<u64>, k: int)
    requires
        is_run(run, peers),
        0 <= k < run.len(),
    ensures
        votes_are_cast(run, peers, k),
    decreases k,
{
    lemma_identities(run, peers, k);
    if k > 0 {
        lemma_votes_are_cast(run, peers, k - 1);
        lemma_identities(run, peers, k - 1);
        let before = run[k - 1];
        assert(is_step(run, k - 1));
        let (id, input) = choose|id: u64, input: Input| #[trigger]
            before.takes(id, input, run[k - 1 + 1]);
        let node = before.nodes[id];
        let (after, actions) = node.step(input);
        assert(peers.contains(id)) by {
            assert(peers.to_set().contains(id));
        }
        assert forall|from: u64, action: ActionView| #[trigger]
            run[k].sent.contains((from, action)) implies is_recorded(
            run,
            peers,
            k,
            from,
            action,
        ) by {
            if let ActionView::SendRequestVoteResponse { to, response } = action {
                if before.sent.contains((from, action)) {
                    assert(is_recorded(run, peers, k - 1, from, action));
                } else if response.vote_granted {
                    laws::law_granted_votes_are_recorded(node, input, to, response);
                    assert(votes_at(run, k, from, response.term, to));
                }
            }
        }
        assert forall|other: u64| #[trigger]
            run[k].nodes.contains_key(other) && run[k].nodes[other].state.role
                != NodeRole::Follower implies {
            let node = run[k].nodes[other];
            &&& node.votes_received.finite()
            &&& forall|voter: u64| #[trigger]
                node.votes_received.contains(voter) ==> peers.contains(voter) && has_voted(
                    run,
                    k,
                    voter,
                    node.state.current_term,
                    other,
                )
            &&& node.state.role == NodeRole::Leader ==> node.votes_received.len()
                >= node.state.majority()
        } by {
            assert(before.nodes.contains_key(other));
            let now = run[k].nodes[other];
            assert forall|voter: u64| #[trigger] now.votes_received.contains(voter) implies
                peers.contains(voter) && has_voted(
                run,
                k,
                voter,
                now.state.current_term,
                other,
            ) by {
                let was = before.nodes[other];
                if was.state.role != NodeRole::Follower && was.votes_received.contains(voter)
                    && was.state.current_term == now.state.current_term {
                    assert(has_voted(run, k - 1, voter, was.state.current_term, other));
                } else if input is Tick {
                    assert(votes_at(run, k, other, now.state.current_term, other));
                } else {
                    let (from, action) = choose|from: u64, action: ActionView| #[trigger]
                        before.sent.contains((from, action)) && recipient(action) == Some(id)
                            && input == delivered(from, action);
                    assert(action is SendRequestVoteResponse);
                    assert(is_recorded(run, peers, k - 1, from, action));
                }
            }
            assert(now.votes_received.finite());
        }
    }
}

/// There is at most one leader in a term, at any two moments of any run, whatever the network
/// does with the messages and however often nodes restart.
pub proof fn law_one_leader_per_term(
    run: Seq<System>,
    peers: Seq<u64>,
    i: int,
    j: int,
    first: u64,
    second: u64,
    term: u64,
)
    requires
        is_run(run, peers),
        0 <= i < run.len(),
        0 <= j < run.len(),
        leads(run, i, first, term),
        leads(run, j, second, term),
    ensures
        first == second,
{
    lemma_votes_are_cast(run, peers, i);
    lemma_votes_are_cast(run, peers, j);
    lemma_identities(run, peers, i);
    lemma_identities(run, peers, j);
    let a = run[i].nodes[first].votes_received;
    let b = run[j].nodes[second].votes_received;
    let state = run[i].nodes[first].state;
    assert(a.subset_of(peers.to_set()));
    assert(b.subset_of(peers.to_set()));
    state::law_majorities_overlap(state, a, b);
    let voter = choose|voter: u64| a.contains(voter) && b.contains(voter);
    assert(has_voted(run, i, voter, term, first));
    assert(has_voted(run, j, voter, term, second));
    let k = if i >= j {
        i
    } else {
        j
    };
    assert(has_voted(run, k, voter, term, first));
    assert(has_voted(run, k, voter, term, second));
    law_one_vote_per_term_in_a_run(run, peers, k, voter, term, first, second);
}

/// The log of the node `id` at the moment `k`.
pub open spec fn log_of(run: Seq<System>, k: int, id: u64) -> Seq<LogEntry> {
    run[k].nodes[id].state.log
}

/// Wherever two logs have an entry of the same term at the same index, they are the same up to
/// there.
pub open spec fn match_up(a: Seq<LogEntry>, b: Seq<LogEntry>) -> bool {
    forall|n: int|
        0 <= n < a.len() && n < b.len() && (#[trigger] a[n]).term == (#[trigger] b[n]).term
            ==> a.take(n + 1) == b.take(n + 1)
}

/// A log that starts with the sentinel and whose real entries come from real terms.
pub open spec fn has_real_terms(log: Seq<LogEntry>) -> bool {
    &&& log.len() >= 1
    &&& log[0] == (LogEntry { term: 0, command: LogCommand::Noop })
    &&& forall|n: int| 1 <= n < log.len() ==> (#[trigger] log[n]).term >= 1
}

/// The request sends a stretch to the end of a log, or, from past the end of it, nothing.
pub open spec fn is_cut_from(request: AppendEntriesView, log: Seq<LogEntry>) -> bool {
    if request.prev_log_index < log.len() {
        &&& request.prev_log_term == log[request.prev_log_index as int].term
        &&& request.entries == log.skip(request.prev_log_index + 1)
    } else {
        &&& request.prev_log_term == 0
        &&& request.entries == Seq::<LogEntry>::empty()
    }
}

/// The request was cut from the log of its sender at the moment `j`, when that led, and claims no
/// more to be committed than its sender had then.
pub open spec fn is_cut_at(run: Seq<System>, j: int, from: u64, request: AppendEntriesView) -> bool {
    &&& leads(run, j, from, request.term)
    &&& has_real_terms(log_of(run, j, from))
    &&& is_cut_from(request, log_of(run, j, from))
    &&& request.leader_commit <= run[j].nodes[from].state.commit_index
}

/// The action is no append request, or it was cut from the log of its sender when that led.
pub open spec fn is_cut(run: Seq<System>, k: int, from: u64, action: ActionView) -> bool {
    action matches ActionView::SendAppendEntries { request, .. } ==> exists|j: int|
        0 <= j <= k && #[trigger] is_cut_at(run, j, from, request)
}

/// Some node led in `term` up to the moment `k`.
pub open spec fn has_led(run: Seq<System>, k: int, term: u64) -> bool {
    exists|j: int, id: u64| 0 <= j <= k && #[trigger] leads(run, j, id, term)
}

/// What holds of the log and the role of a node at the moment `k`.
pub open spec fn is_sound(run: Seq<System>, k: int, node: NodeView) -> bool {
    &&& has_real_terms(node.state.log)
    &&& node.state.role != NodeRole::Follower ==> node.state.current_term >= 1
    &&& node.state.role == NodeRole::Leader ==> sends_real_entries(node.state)
    &&& forall|n: int|
        1 <= n < node.state.log.len() ==> has_led(run, k, (#[trigger] node.state.log[n]).term)
}

/// What holds of all nodes and of all append requests at the moment `k`.
pub open spec fn logs_are_sound(run: Seq<System>, k: int) -> bool {
    &&& forall|id: u64| #[trigger]
        run[k].nodes.contains_key(id) ==> is_sound(run, k, run[k].nodes[id])
    &&& forall|from: u64, action: ActionView| #[trigger]
        run[k].sent.contains((from, action)) ==> is_cut(run, k, from, action)
}

/// A node that led or followed in a term is not a candidate of that term later.
pub proof fn lemma_no_second_candidacy(run: Seq<System>, peers: Seq<u64>, j: int, k: int, id: u64)
    requires
        is_run(run, peers),
        0 <= j <= k < run.len(),
        run[j].nodes.contains_key(id),
        run[j].nodes[id].state.role != NodeRole::Candidate,
    ensures
        run[k].nodes.contains_key(id),
        run[k].nodes[id].state.current_term >= run[j].nodes[id].state.current_term,
        run[k].nodes[id].state.current_term == run[j].nodes[id].state.current_term
            ==> run[k].nodes[id].state.role != NodeRole::Candidate,
    decreases k - j,
{
    if j < k {
        lemma_no_second_candidacy(run, peers, j, k - 1, id);
        let before = run[k - 1];
        assert(is_step(run, k - 1));
        let (taker, input) = choose|taker: u64, input: Input| #[trigger]
            before.takes(taker, input, run[k - 1 + 1]);
        laws::law_term_never_decreases(before.nodes[taker], input);
    }
}

/// Two logs that match up, cut at the same length, are the same up to a common term.
pub proof fn lemma_same_prefix(a: Seq<LogEntry>, b: Seq<LogEntry>, length: int)
    requires
        match_up(a, b),
        1 <= length <= a.len(),
        length <= b.len(),
        a[length - 1].term == b[length - 1].term,
    ensures
        a.take(length) == b.take(length),
{
}

/// A follower whose log matches up with the leader's, and that accepts what the leader cut from
/// its log, keeps its own log or takes over the leader's.
pub proof fn lemma_merge(own: Seq<LogEntry>, leaders: Seq<LogEntry>, request: AppendEntriesView)
    requires
        has_real_terms(own),
        has_real_terms(leaders),
        match_up(own, leaders),
        is_cut_from(request, leaders),
        super::log::term_of(own, request.prev_log_index as int) == request.prev_log_term,
    ensures
        model::merged(own, request.prev_log_index + 1, request.entries) == own || model::merged(
            own,
            request.prev_log_index + 1,
            request.entries,
        ) == leaders,
{
    let prev = request.prev_log_index as int;
    let start = prev + 1;
    let entries = request.entries;
    let held = model::already_held(own, start, entries);
    model::lemma_already_held(own, start, entries);
    if held < entries.len() {
        assert(prev < leaders.len());
        if prev > 0 {
            assert(leaders[prev].term >= 1);
        }
        assert(prev < own.len());
        assert(own[prev].term == leaders[prev].term);
        let length = start + held;
        assert(length <= own.len());
        assert(length <= leaders.len());
        if held > 0 {
            laws::lemma_held_terms(own, start, entries, held - 1);
            assert(entries[held - 1] == leaders[start + held - 1]);
        }
        assert(own[length - 1].term == leaders[length - 1].term);
        lemma_same_prefix(own, leaders, length);
        assert(own.take(length) + entries.skip(held) =~= leaders) by {
            assert forall|n: int| 0 <= n < leaders.len() implies (own.take(length) + entries.skip(
                held,
            ))[n] == leaders[n] by {
                if n < length {
                    assert(own.take(length)[n] == leaders.take(length)[n]);
                } else {
                    assert(entries.skip(held)[n - length] == leaders[n]);
                }
            }
        }
        if length == own.len() {
            assert(own.take(length) =~= own);
        }
    }
}

/// Some node had this log at some moment up to `k`.
pub open spec fn has_occurred(run: Seq<System>, k: int, log: Seq<LogEntry>) -> bool {
    exists|j: int, id: u64|
        0 <= j <= k && run[j].nodes.contains_key(id) && log == #[trigger] log_of(run, j, id)
}

/// All logs of the run up to the moment `k` match up with each other.
pub open spec fn logs_match(run: Seq<System>, k: int) -> bool {
    forall|i: int, a: u64, j: int, b: u64|
        #![trigger log_of(run, i, a), log_of(run, j, b)]
        0 <= i <= k && 0 <= j <= k && run[i].nodes.contains_key(a) && run[j].nodes.contains_key(b)
            ==> match_up(log_of(run, i, a), log_of(run, j, b))
}

/// All entries of `term` in a log have an index below `length`.
pub open spec fn ends_below(log: Seq<LogEntry>, term: u64, length: int) -> bool {
    forall|n: int| 0 <= n < log.len() && (#[trigger] log[n]).term == term ==> n < length
}

/// No log of the run up to the moment `k` has an entry of a leader's term past the end of that
/// leader's log.
pub open spec fn leaders_have_all(run: Seq<System>, k: int) -> bool {
    forall|id: u64, j: int, b: u64|
        #![trigger run[k].nodes.contains_key(id), log_of(run, j, b)]
        run[k].nodes.contains_key(id) && run[k].nodes[id].state.role == NodeRole::Leader && 0 <= j
            <= k && run[j].nodes.contains_key(b) ==> ends_below(
            log_of(run, j, b),
            run[k].nodes[id].state.current_term,
            run[k].nodes[id].state.log.len() as int,
        )
}

/// The node `id` appended an entry of its own term to its log at the moment `k`.
pub open spec fn has_appended(run: Seq<System>, k: int, id: u64) -> bool {
    let before = run[k - 1].nodes[id].state;
    let after = run[k].nodes[id].state;
    &&& before.role == NodeRole::Leader
    &&& after.role == NodeRole::Leader
    &&& after.current_term == before.current_term
    &&& after.log.len() == before.log.len() + 1
    &&& after.log.drop_last() == before.log
    &&& after.log.last().term == before.current_term
}

pub proof fn lemma_new_log(run: Seq<System>, k: int, id: u64, input: Input)
    requires
        0 < k < run.len(),
        run[k - 1].takes(id, input, run[k]),
        logs_are_sound(run, k - 1),
        logs_match(run, k - 1),
    ensures
        has_occurred(run, k - 1, log_of(run, k, id)) || has_appended(run, k, id),
{
    let before = run[k - 1];
    let node = before.nodes[id];
    let own = log_of(run, k - 1, id);
    let new = log_of(run, k, id);
    assert(before.nodes.contains_key(id));
    if input is Propose && node.state.role == NodeRole::Leader {
        assert(new.drop_last() =~= own);
    } else if input is AppendEntries && node.state.accepts(input->AppendEntries_request) {
        let request = input->AppendEntries_request;
        let (from, action) = choose|from: u64, action: ActionView| #[trigger]
            before.sent.contains((from, action)) && recipient(action) == Some(id) && input
                == delivered(from, action);
        assert(is_cut(run, k - 1, from, action));
        let j = choose|j: int| 0 <= j <= k - 1 && #[trigger] is_cut_at(run, j, from, request);
        assert(match_up(own, log_of(run, j, from)));
        lemma_merge(own, log_of(run, j, from), request);
        assert(new == own || new == log_of(run, j, from));
    } else {
        assert(new == own);
    }
}

/// Every tracked node is to be sent real entries, not the sentinel.
pub open spec fn sends_real_entries(state: StateView) -> bool {
    forall|i: int| 0 <= i < state.next_index.len() ==> (#[trigger] state.next_index[i]).1 >= 1
}

/// What a leader sends is cut from its log.
pub proof fn lemma_requests_are_cut(state: StateView, action: ActionView)
    requires
        sends_real_entries(state),
        state.append_requests(state.peers).contains(action),
    ensures
        action is SendAppendEntries,
        action->SendAppendEntries_request.term == state.current_term,
        action->SendAppendEntries_request.leader_commit == state.commit_index,
        is_cut_from(action->SendAppendEntries_request, state.log),
{
    model::lemma_append_requests(state, state.peers, action);
    let request = action->SendAppendEntries_request;
    let to = action->SendAppendEntries_to;
    let next = model::progress_at(state.next_index, to);
    laws::lemma_position_is_first(state.next_index, to);
    assert(next >= 1);
    assert(request == state.append_request(next));
    if next <= state.log.len() {
        assert(request.entries =~= state.log.skip(next as int));
    }
}

/// A leader goes on to send real entries.
pub proof fn lemma_sends_real_entries(node: NodeView, input: Input)
    requires
        node.can_take(input),
        node.state.role == NodeRole::Leader ==> sends_real_entries(node.state),
        node.step(input).0.state.role == NodeRole::Leader,
    ensures
        sends_real_entries(node.step(input).0.state),
{
    let before = node.state;
    let after = node.step(input).0.state;
    if let Input::AppendEntriesResponse { from, response } = input {
        laws::lemma_position_is_first(before.next_index, from);
        assert(after.next_index.len() == before.next_index.len());
        assert forall|i: int| 0 <= i < after.next_index.len() implies (
        #[trigger] after.next_index[i]).1 >= 1 by {
            assert(before.next_index[i].1 >= 1);
        }
    } else if before.role == NodeRole::Leader {
        assert(after.next_index == before.next_index);
    } else {
        assert(after.next_index == state::progress_of_others(
            before.peers,
            before.id,
            before.log.len() as usize,
        ));
    }
}

/// The log that a node has after taking an input is as sound as the logs before.
pub proof fn lemma_sound_log(run: Seq<System>, k: int, id: u64)
    requires
        0 < k < run.len(),
        run[k - 1].nodes.contains_key(id),
        has_occurred(run, k - 1, log_of(run, k, id)) || has_appended(run, k, id),
        forall|j: int| 0 <= j < k ==> #[trigger] logs_are_sound(run, j),
    ensures
        has_real_terms(log_of(run, k, id)),
        forall|n: int|
            1 <= n < log_of(run, k, id).len() ==> has_led(
                run,
                k,
                (#[trigger] log_of(run, k, id)[n]).term,
            ),
{
    let log = log_of(run, k, id);
    if has_occurred(run, k - 1, log) {
        let (j, b) = choose|j: int, b: u64|
            0 <= j <= k - 1 && run[j].nodes.contains_key(b) && log == #[trigger] log_of(run, j, b);
        assert(logs_are_sound(run, j));
        assert(run[j].nodes.contains_key(b));
        assert forall|n: int| 1 <= n < log.len() implies has_led(
            run,
            k,
            (#[trigger] log[n]).term,
        ) by {
            assert(run[j].nodes[b].state.log[n] == log[n]);
            lemma_has_led(run, j, k, log[n].term);
        }
    } else {
        let own = log_of(run, k - 1, id);
        let term = run[k - 1].nodes[id].state.current_term;
        assert(logs_are_sound(run, k - 1));
        assert(leads(run, k - 1, id, term));
        assert forall|n: int| 0 <= n < log.len() implies if n < own.len() {
            #[trigger] log[n] == own[n]
        } else {
            log[n].term == term
        } by {
            if n < own.len() {
                assert(log.drop_last()[n] == own[n]);
            }
        }
        assert forall|n: int| 1 <= n < log.len() implies has_led(
            run,
            k,
            (#[trigger] log[n]).term,
        ) by {
            if n < own.len() {
                assert(run[k - 1].nodes[id].state.log[n] == log[n]);
                lemma_has_led(run, k - 1, k, log[n].term);
            }
        }
    }
}

/// Who has led by some moment has led by every later one.
pub proof fn lemma_has_led(run: Seq<System>, j: int, k: int, term: u64)
    requires
        j <= k,
        has_led(run, j, term),
    ensures
        has_led(run, k, term),
{
    let (i, leader) = choose|i: int, leader: u64|
        0 <= i <= j && #[trigger] leads(run, i, leader, term);
    assert(leads(run, i, leader, term));
}

/// The logs, the roles and the append requests stay sound when a node takes an input.
pub proof fn lemma_sound_step(run: Seq<System>, peers: Seq<u64>, k: int, id: u64, input: Input)
    requires
        is_run(run, peers),
        0 < k < run.len(),
        run[k - 1].takes(id, input, run[k]),
        has_occurred(run, k - 1, log_of(run, k, id)) || has_appended(run, k, id),
        forall|j: int| 0 <= j < k ==> #[trigger] logs_are_sound(run, j),
    ensures
        logs_are_sound(run, k),
{
    let before = run[k - 1];
    let node = before.nodes[id];
    let (after, actions) = node.step(input);
    assert(logs_are_sound(run, k - 1));
    assert(before.nodes.contains_key(id));
    lemma_sound_log(run, k, id);
    if after.state.role == NodeRole::Leader {
        lemma_sends_real_entries(node, input);
    }
    assert forall|from: u64, action: ActionView| #[trigger]
        run[k].sent.contains((from, action)) implies is_cut(run, k, from, action) by {
        if before.sent.contains((from, action)) {
            assert(is_cut(run, k - 1, from, action));
            if let ActionView::SendAppendEntries { request, .. } = action {
                let j = choose|j: int| 0 <= j <= k - 1 && #[trigger] is_cut_at(run, j, from, request);
                assert(is_cut_at(run, j, from, request));
            }
        } else if action is SendAppendEntries {
            laws::lemma_where_actions_come_from(node, input, action);
            lemma_requests_are_cut(laws::replicated_from(node, input), action);
            assert(is_cut_at(run, k, id, action->SendAppendEntries_request));
        }
    }
    assert forall|other: u64| #[trigger] run[k].nodes.contains_key(other) implies is_sound(
        run,
        k,
        run[k].nodes[other],
    ) by {
        assert(before.nodes.contains_key(other));
        assert(is_sound(run, k - 1, before.nodes[other]));
        let now = run[k].nodes[other];
        if other == id {
            assert(now.state.role != NodeRole::Follower ==> now.state.current_term >= 1);
        } else {
            assert forall|n: int| 1 <= n < now.state.log.len() implies has_led(
                run,
                k,
                (#[trigger] now.state.log[n]).term,
            ) by {
                lemma_has_led(run, k - 1, k, now.state.log[n].term);
            }
        }
    }
}

/// A log that has occurred before matches up with every log so far, and so does a log that a
/// leader has extended.
pub proof fn lemma_new_log_matches(run: Seq<System>, k: int, id: u64, j: int, b: u64)
    requires
        0 < k < run.len(),
        run[k - 1].nodes.contains_key(id),
        0 <= j < k,
        run[j].nodes.contains_key(b),
        has_occurred(run, k - 1, log_of(run, k, id)) || has_appended(run, k, id),
        logs_match(run, k - 1),
        leaders_have_all(run, k - 1),
    ensures
        match_up(log_of(run, k, id), log_of(run, j, b)),
        match_up(log_of(run, j, b), log_of(run, k, id)),
{
    let new = log_of(run, k, id);
    let other = log_of(run, j, b);
    if has_occurred(run, k - 1, new) {
        let (i, a) = choose|i: int, a: u64|
            0 <= i <= k - 1 && run[i].nodes.contains_key(a) && new == #[trigger] log_of(run, i, a);
        assert(match_up(log_of(run, i, a), other));
        assert(match_up(other, log_of(run, i, a)));
    } else {
        let own = log_of(run, k - 1, id);
        let term = run[k - 1].nodes[id].state.current_term;
        assert(match_up(own, other));
        assert(ends_below(other, term, own.len() as int));
        assert forall|n: int|
            0 <= n < new.len() && n < other.len() && (#[trigger] new[n]).term == (
            #[trigger] other[n]).term implies new.take(n + 1) == other.take(n + 1) by {
            if n < own.len() {
                assert(new.drop_last()[n] == own[n]);
                assert(own[n].term == other[n].term);
                assert(own.take(n + 1) == other.take(n + 1));
                assert(new.take(n + 1) =~= new.drop_last().take(n + 1));
            } else {
                assert(other[n].term == term);
            }
        }
        assert forall|n: int|
            0 <= n < other.len() && n < new.len() && (#[trigger] other[n]).term == (
            #[trigger] new[n]).term implies other.take(n + 1) == new.take(n + 1) by {
            assert(new[n].term == other[n].term);
        }
    }
}

/// All logs go on to match up when a node takes an input.
pub proof fn lemma_match_step(run: Seq<System>, k: int, id: u64, input: Input)
    requires
        0 < k < run.len(),
        run[k - 1].takes(id, input, run[k]),
        has_occurred(run, k - 1, log_of(run, k, id)) || has_appended(run, k, id),
        logs_match(run, k - 1),
        leaders_have_all(run, k - 1),
    ensures
        logs_match(run, k),
{
    assert forall|i: int, a: u64, j: int, b: u64|
        #![trigger log_of(run, i, a), log_of(run, j, b)]
        0 <= i <= k && 0 <= j <= k && run[i].nodes.contains_key(a) && run[j].nodes.contains_key(
            b,
        ) implies match_up(log_of(run, i, a), log_of(run, j, b)) by {
        // A log of the moment `k` is the new one, or it was there a moment before.
        let i0 = if i == k && a != id {
            k - 1
        } else {
            i
        };
        let j0 = if j == k && b != id {
            k - 1
        } else {
            j
        };
        assert(log_of(run, i0, a) == log_of(run, i, a));
        assert(log_of(run, j0, b) == log_of(run, j, b));
        if i0 < k && j0 < k {
            assert(match_up(log_of(run, i0, a), log_of(run, j0, b)));
        } else if i0 == k && j0 == k {
            assert(match_up(log_of(run, k, id), log_of(run, k, id)));
        } else if i0 == k {
            lemma_new_log_matches(run, k, id, j0, b);
        } else {
            lemma_new_log_matches(run, k, id, i0, a);
        }
    }
}

/// Leaders go on to have all entries of their term when a node takes an input.
pub proof fn lemma_leaders_step(run: Seq<System>, peers: Seq<u64>, k: int, id: u64, input: Input)
    requires
        is_run(run, peers),
        0 < k < run.len(),
        run[k - 1].takes(id, input, run[k]),
        has_occurred(run, k - 1, log_of(run, k, id)) || has_appended(run, k, id),
        forall|j: int| 0 <= j <= k ==> #[trigger] logs_are_sound(run, j),
        leaders_have_all(run, k - 1),
    ensures
        leaders_have_all(run, k),
{
    let before = run[k - 1];
    let node = before.nodes[id];
    assert forall|leader: u64, j: int, b: u64|
        #![trigger run[k].nodes.contains_key(leader), log_of(run, j, b)]
        run[k].nodes.contains_key(leader) && run[k].nodes[leader].state.role == NodeRole::Leader
            && 0 <= j <= k && run[j].nodes.contains_key(b) implies ends_below(
        log_of(run, j, b),
        run[k].nodes[leader].state.current_term,
        run[k].nodes[leader].state.log.len() as int,
    ) by {
        let now = run[k].nodes[leader].state;
        let was = before.nodes[leader].state;
        let term = now.current_term;
        let log = log_of(run, j, b);
        assert(before.nodes.contains_key(leader));
        assert(before.nodes.contains_key(id));
        assert(logs_are_sound(run, k));
        assert(is_sound(run, k, run[k].nodes[leader]));
        assert(leads(run, k, leader, term));
        if was.role == NodeRole::Leader && was.current_term == term {
            assert(now.log.len() >= was.log.len()) by {
                if leader == id {
                    laws::law_leader_only_appends(node, input);
                }
            }
            if j < k {
                assert(ends_below(log, term, was.log.len() as int));
            } else if b != id {
                assert(log == log_of(run, k - 1, b));
                assert(ends_below(log_of(run, k - 1, b), term, was.log.len() as int));
            } else if has_occurred(run, k - 1, log) {
                let (i, a) = choose|i: int, a: u64|
                    0 <= i <= k - 1 && run[i].nodes.contains_key(a) && log == #[trigger] log_of(
                        run,
                        i,
                        a,
                    );
                assert(ends_below(log_of(run, i, a), term, was.log.len() as int));
            } else if leader != id {
                let own = log_of(run, k - 1, id);
                assert(ends_below(own, term, was.log.len() as int));
                if node.state.current_term == term {
                    assert(leads(run, k - 1, id, term));
                    law_one_leader_per_term(run, peers, k - 1, k, id, leader, term);
                }
                assert forall|n: int| 0 <= n < log.len() && (#[trigger] log[n]).term
                    == term implies n < now.log.len() by {
                    if n < own.len() {
                        assert(log.drop_last()[n] == own[n]);
                    } else {
                        assert(log[n] == log.last());
                    }
                }
            }
        } else {
            assert(leader == id);
            assert forall|n: int| 0 <= n < log.len() && (#[trigger] log[n]).term == term implies n
                < now.log.len() by {
                assert(logs_are_sound(run, j));
                assert(is_sound(run, j, run[j].nodes[b]));
                assert(run[j].nodes[b].state.log[n] == log[n]);
                if n >= 1 {
                    assert(has_led(run, j, term));
                    let (i, first) = choose|i: int, first: u64|
                        0 <= i <= j && #[trigger] leads(run, i, first, term);
                    law_one_leader_per_term(run, peers, i, k, first, leader, term);
                    if i < k {
                        lemma_no_second_candidacy(run, peers, i, k - 1, leader);
                        assert(false);
                    } else {
                        assert(j == k);
                        if b != id {
                            assert(logs_are_sound(run, k - 1));
                            assert(is_sound(run, k - 1, before.nodes[b]));
                            assert(before.nodes[b].state.log[n].term == term);
                            assert(has_led(run, k - 1, term));
                            let (h, second) = choose|h: int, second: u64|
                                0 <= h <= k - 1 && #[trigger] leads(run, h, second, term);
                            law_one_leader_per_term(run, peers, h, k, second, leader, term);
                            lemma_no_second_candidacy(run, peers, h, k - 1, leader);
                        }
                    }
                }
            }
        }
    }
}

pub proof fn lemma_logs(run: Seq<System>, peers: Seq<u64>, k: int)
    requires
        is_run(run, peers),
        0 <= k < run.len(),
    ensures
        forall|j: int| 0 <= j <= k ==> #[trigger] logs_are_sound(run, j),
        logs_match(run, k),
        leaders_have_all(run, k),
    decreases k,
{
    if k == 0 {
        assert forall|id: u64| #[trigger] run[0].nodes.contains_key(id) implies is_sound(
            run,
            0,
            run[0].nodes[id],
        ) by {
            assert(run[0].nodes[id].state.log =~= super::log::empty_log());
        }
        assert(logs_are_sound(run, 0));
        assert forall|i: int, a: u64, j: int, b: u64|
            #![trigger log_of(run, i, a), log_of(run, j, b)]
            0 <= i <= 0 && 0 <= j <= 0 && run[i].nodes.contains_key(a) && run[j].nodes.contains_key(
                b,
            ) implies match_up(log_of(run, i, a), log_of(run, j, b)) by {
            assert(log_of(run, i, a) == log_of(run, j, b));
        }
    } else {
        lemma_logs(run, peers, k - 1);
        let before = run[k - 1];
        assert(is_step(run, k - 1));
        let (id, input) = choose|id: u64, input: Input| #[trigger]
            before.takes(id, input, run[k - 1 + 1]);
        lemma_new_log(run, k, id, input);
        lemma_sound_step(run, peers, k, id, input);
        assert forall|j: int| 0 <= j <= k implies #[trigger] logs_are_sound(run, j) by {
            if j < k {
                assert(0 <= j <= k - 1);
            }
        }
        lemma_match_step(run, k, id, input);
        lemma_leaders_step(run, peers, k, id, input);
    }
}

/// If two nodes, at any two moments of any run, have an entry of the same term at the same index,
/// their logs were the same up to and including that entry.
pub proof fn law_logs_match(
    run: Seq<System>,
    peers: Seq<u64>,
    i: int,
    j: int,
    a: u64,
    b: u64,
    index: int,
)
    requires
        is_run(run, peers),
        0 <= i < run.len(),
        0 <= j < run.len(),
        run[i].nodes.contains_key(a),
        run[j].nodes.contains_key(b),
        0 <= index < log_of(run, i, a).len(),
        index < log_of(run, j, b).len(),
        log_of(run, i, a)[index].term == log_of(run, j, b)[index].term,
    ensures
        log_of(run, i, a).take(index + 1) == log_of(run, j, b).take(index + 1),
{
    lemma_logs(run, peers, model::max(i, j));
    assert(match_up(log_of(run, i, a), log_of(run, j, b)));
}

} // verus!
