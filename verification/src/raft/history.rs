//! The logs of a cluster over time: where entries come from, and what later leaders have.

use super::laws;
use super::laws::Input;
use super::log::LogEntry;
use super::message::AppendEntriesView;
use super::model;
use super::model::ActionView;
use super::safety;
use super::safety::System;
use super::state;
use super::state::NodeRole;
use vstd::prelude::*;

verus! {

/// The log that the node `id` has at the moment `k` is that of a leader of the node's term.
spec fn is_taken_over(run: Seq<System>, k: int, id: u64) -> bool {
    exists|h: int, from: u64|
        0 <= h < k && #[trigger] safety::leads(
            run,
            h,
            from,
            run[k].nodes[id].state.current_term,
        ) && safety::log_of(run, k, id) == safety::log_of(run, h, from)
}

/// From one moment to the next the log of a node stays, or grows by an entry of the node's own
/// term, or becomes that of a leader.
proof fn lemma_sources(run: Seq<System>, peers: Seq<u64>, k: int, id: u64)
    requires
        safety::is_run(run, peers),
        0 < k < run.len(),
        run[k].nodes.contains_key(id),
    ensures
        run[k - 1].nodes.contains_key(id),
        run[k].nodes[id].state.current_term >= run[k - 1].nodes[id].state.current_term,
        safety::log_of(run, k, id) == safety::log_of(run, k - 1, id) || safety::has_appended(
            run,
            k,
            id,
        ) || is_taken_over(run, k, id),
{
    safety::lemma_logs(run, peers, k - 1);
    let before = run[k - 1];
    assert(safety::is_step(run, k - 1));
    let (taker, input) = choose|taker: u64, input: Input| #[trigger]
        before.takes(taker, input, run[k - 1 + 1]);
    laws::law_term_never_decreases(before.nodes[taker], input);
    if taker == id {
        let node = before.nodes[id];
        let own = safety::log_of(run, k - 1, id);
        let new = safety::log_of(run, k, id);
        if input is Propose && node.state.role == NodeRole::Leader {
            assert(new.drop_last() =~= own);
        } else if input is AppendEntries && node.state.accepts(input->AppendEntries_request) {
            let request = input->AppendEntries_request;
            let (from, action) = choose|from: u64, action: ActionView| #[trigger]
                before.sent.contains((from, action)) && safety::recipient(action) == Some(id)
                    && input == safety::delivered(from, action);
            assert(safety::logs_are_sound(run, k - 1));
            assert(safety::is_cut(run, k - 1, from, action));
            let h = choose|h: int|
                0 <= h <= k - 1 && #[trigger] safety::is_cut_at(run, h, from, request);
            assert(safety::match_up(own, safety::log_of(run, h, from)));
            safety::lemma_merge(own, safety::log_of(run, h, from), request);
            assert(safety::leads(run, h, from, run[k].nodes[id].state.current_term));
        } else {
            assert(new == own);
        }
    }
}

/// The terms of a log do not decrease, and none is above `bound`.
pub open spec fn terms_go_up(log: Seq<LogEntry>, bound: u64) -> bool {
    &&& forall|m: int, n: int|
        #![trigger log[m], log[n]]
        0 <= m <= n < log.len() ==> log[m].term <= log[n].term
    &&& forall|n: int| 0 <= n < log.len() ==> (#[trigger] log[n]).term <= bound
}

/// In a run, the terms of every log go up to the term of the node at most.
pub proof fn law_terms_go_up(run: Seq<System>, peers: Seq<u64>, k: int, id: u64)
    requires
        safety::is_run(run, peers),
        0 <= k < run.len(),
        run[k].nodes.contains_key(id),
    ensures
        terms_go_up(safety::log_of(run, k, id), run[k].nodes[id].state.current_term),
    decreases k,
{
    let log = safety::log_of(run, k, id);
    if k == 0 {
        assert(log =~= super::log::empty_log());
    } else {
        lemma_sources(run, peers, k, id);
        let own = safety::log_of(run, k - 1, id);
        if log == own {
            law_terms_go_up(run, peers, k - 1, id);
        } else if safety::has_appended(run, k, id) {
            law_terms_go_up(run, peers, k - 1, id);
            assert forall|n: int| 0 <= n < own.len() implies #[trigger] log[n] == own[n] by {
                assert(log.drop_last()[n] == own[n]);
            }
        } else {
            let (h, from) = choose|h: int, from: u64|
                0 <= h < k && #[trigger] safety::leads(
                    run,
                    h,
                    from,
                    run[k].nodes[id].state.current_term,
                ) && log == safety::log_of(run, h, from);
            law_terms_go_up(run, peers, h, from);
        }
    }
}

/// A leader of the term of the entry at `n` had the same log up to that entry.
spec fn originates(run: Seq<System>, k: int, log: Seq<LogEntry>, n: int) -> bool {
    exists|j: int, leader: u64|
        0 <= j <= k && #[trigger] safety::leads(run, j, leader, log[n].term) && n < safety::log_of(
            run,
            j,
            leader,
        ).len() && safety::log_of(run, j, leader).take(n + 1) == log.take(n + 1)
}

/// What originates by some moment originates by every later one.
proof fn lemma_originates(run: Seq<System>, j: int, k: int, a: Seq<LogEntry>, b: Seq<LogEntry>, n: int)
    requires
        j <= k,
        0 <= n < a.len(),
        n < b.len(),
        a.take(n + 1) == b.take(n + 1),
        originates(run, j, a, n),
    ensures
        originates(run, k, b, n),
{
    assert(a[n] == a.take(n + 1)[n]);
    assert(b[n] == b.take(n + 1)[n]);
    let (i, leader) = choose|i: int, leader: u64|
        0 <= i <= j && #[trigger] safety::leads(run, i, leader, a[n].term) && n < safety::log_of(
            run,
            i,
            leader,
        ).len() && safety::log_of(run, i, leader).take(n + 1) == a.take(n + 1);
    assert(safety::leads(run, i, leader, b[n].term));
}

/// Every entry of every log comes from a leader.
proof fn lemma_origin(run: Seq<System>, peers: Seq<u64>, k: int, id: u64, n: int)
    requires
        safety::is_run(run, peers),
        0 <= k < run.len(),
        run[k].nodes.contains_key(id),
        1 <= n < safety::log_of(run, k, id).len(),
    ensures
        originates(run, k, safety::log_of(run, k, id), n),
    decreases k,
{
    let log = safety::log_of(run, k, id);
    if k == 0 {
        assert(log =~= super::log::empty_log());
    } else {
        lemma_sources(run, peers, k, id);
        let own = safety::log_of(run, k - 1, id);
        if log == own {
            lemma_origin(run, peers, k - 1, id, n);
            lemma_originates(run, k - 1, k, own, log, n);
        } else if safety::has_appended(run, k, id) {
            if n < own.len() {
                lemma_origin(run, peers, k - 1, id, n);
                assert(log.take(n + 1) =~= log.drop_last().take(n + 1));
                lemma_originates(run, k - 1, k, own, log, n);
            } else {
                assert(safety::leads(run, k, id, log[n].term));
            }
        } else {
            let (h, from) = choose|h: int, from: u64|
                0 <= h < k && #[trigger] safety::leads(
                    run,
                    h,
                    from,
                    run[k].nodes[id].state.current_term,
                ) && log == safety::log_of(run, h, from);
            lemma_origin(run, peers, h, from, n);
            lemma_originates(run, h, k, log, log, n);
        }
    }
}

/// Within its term a leader only appends to its log.
pub proof fn law_leaders_only_append(
    run: Seq<System>,
    peers: Seq<u64>,
    i: int,
    j: int,
    leader: u64,
    term: u64,
)
    requires
        safety::is_run(run, peers),
        0 <= i <= j < run.len(),
        safety::leads(run, i, leader, term),
        safety::leads(run, j, leader, term),
    ensures
        safety::log_of(run, i, leader).is_prefix_of(safety::log_of(run, j, leader)),
    decreases j - i,
{
    if i < j {
        safety::lemma_no_second_candidacy(run, peers, i, j - 1, leader);
        let before = run[j - 1];
        assert(safety::is_step(run, j - 1));
        let (taker, input) = choose|taker: u64, input: Input| #[trigger]
            before.takes(taker, input, run[j - 1 + 1]);
        laws::law_term_never_decreases(before.nodes[taker], input);
        assert(safety::leads(run, j - 1, leader, term));
        law_leaders_only_append(run, peers, i, j - 1, leader, term);
        if taker == leader {
            laws::law_leader_only_appends(before.nodes[leader], input);
        }
    }
}

/// The first moment at which a leader leads in a term.
proof fn lemma_first_moment(run: Seq<System>, j: int, leader: u64, term: u64) -> (first: int)
    requires
        0 <= j < run.len(),
        safety::leads(run, j, leader, term),
    ensures
        0 <= first <= j,
        safety::leads(run, first, leader, term),
        forall|i: int| 0 <= i < first ==> !#[trigger] safety::leads(run, i, leader, term),
    decreases j,
{
    if exists|i: int| 0 <= i < j && #[trigger] safety::leads(run, i, leader, term) {
        let i = choose|i: int| 0 <= i < j && #[trigger] safety::leads(run, i, leader, term);
        lemma_first_moment(run, i, leader, term)
    } else {
        j
    }
}

/// Whether the log of a candidate is at least as up to date as that of a voter.
pub open spec fn is_as_recent(candidates: Seq<LogEntry>, voters: Seq<LogEntry>) -> bool {
    let a = super::log::last_term_of(candidates);
    let b = super::log::last_term_of(voters);
    a > b || (a == b && candidates.len() >= voters.len())
}

/// The node `id` runs for leader or leads in `term` at the moment `k`.
spec fn stands(run: Seq<System>, k: int, id: u64, term: u64) -> bool {
    &&& run[k].nodes.contains_key(id)
    &&& run[k].nodes[id].state.role != NodeRole::Follower
    &&& run[k].nodes[id].state.current_term == term
}

/// The candidate stood in `term` by the moment `w`, with a log as recent as the given one.
spec fn stood_with(run: Seq<System>, w: int, candidate: u64, term: u64, log: Seq<LogEntry>) -> bool {
    exists|c: int|
        0 <= c <= w && #[trigger] stands(run, c, candidate, term) && is_as_recent(
            safety::log_of(run, c, candidate),
            log,
        )
}

/// The node `voter` has its vote recorded at the moment `w`, for a candidate whose log is as recent
/// as its own.
spec fn backs_at(run: Seq<System>, w: int, voter: u64, term: u64, candidate: u64) -> bool {
    &&& safety::votes_at(run, w, voter, term, candidate)
    &&& stood_with(run, w, candidate, term, safety::log_of(run, w, voter))
}

/// The node `voter` has backed the candidate by the moment `k`.
spec fn has_backed(run: Seq<System>, k: int, voter: u64, term: u64, candidate: u64) -> bool {
    exists|w: int| 0 <= w <= k && #[trigger] backs_at(run, w, voter, term, candidate)
}

/// The vote request describes the log that its sender had at the moment `c`, when it stood.
spec fn is_candidacy(run: Seq<System>, c: int, from: u64, action: ActionView) -> bool {
    let request = action->SendRequestVote_request;
    &&& stands(run, c, from, request.term)
    &&& request.candidate_id == from
    &&& request.last_log_index == safety::log_of(run, c, from).len() - 1
    &&& request.last_log_term == super::log::last_term_of(safety::log_of(run, c, from))
}

/// A vote request comes from a candidate, and a granted vote from a node that has backed the
/// candidate.
spec fn is_backed(run: Seq<System>, k: int, from: u64, action: ActionView) -> bool {
    match action {
        ActionView::SendRequestVote { request, .. } => exists|c: int|
            0 <= c <= k && #[trigger] is_candidacy(run, c, from, action),
        ActionView::SendRequestVoteResponse { to, response } => response.vote_granted
            ==> has_backed(run, k, from, response.term, to),
        _ => true,
    }
}

/// All votes that a candidate or leader counts are those of nodes that have backed it.
spec fn has_backers(run: Seq<System>, k: int, id: u64) -> bool {
    let node = run[k].nodes[id];
    node.state.role != NodeRole::Follower ==> forall|voter: u64| #[trigger]
        node.votes_received.contains(voter) ==> has_backed(
            run,
            k,
            voter,
            node.state.current_term,
            id,
        )
}

/// What holds of all votes and all vote requests at the moment `k`.
spec fn votes_are_backed(run: Seq<System>, k: int) -> bool {
    &&& forall|from: u64, action: ActionView| #[trigger]
        run[k].sent.contains((from, action)) ==> is_backed(run, k, from, action)
    &&& forall|id: u64| #[trigger] run[k].nodes.contains_key(id) ==> has_backers(run, k, id)
}

/// A backing stays.
proof fn lemma_has_backed(run: Seq<System>, j: int, k: int, voter: u64, term: u64, candidate: u64)
    requires
        j <= k,
        has_backed(run, j, voter, term, candidate),
    ensures
        has_backed(run, k, voter, term, candidate),
{
    let w = choose|w: int| 0 <= w <= j && #[trigger] backs_at(run, w, voter, term, candidate);
    assert(backs_at(run, w, voter, term, candidate));
}

/// Packets stay backed, and new packets are backed.
proof fn lemma_backed_packets(run: Seq<System>, peers: Seq<u64>, k: int, id: u64, input: Input)
    requires
        safety::is_run(run, peers),
        0 < k < run.len(),
        run[k - 1].takes(id, input, run[k]),
        votes_are_backed(run, k - 1),
    ensures
        forall|from: u64, action: ActionView| #[trigger]
            run[k].sent.contains((from, action)) ==> is_backed(run, k, from, action),
{
    let before = run[k - 1];
    let node = before.nodes[id];
    let (after, actions) = node.step(input);
    safety::lemma_identities(run, peers, k);
    safety::lemma_identities(run, peers, k - 1);
    assert forall|from: u64, action: ActionView| #[trigger]
        run[k].sent.contains((from, action)) implies is_backed(run, k, from, action) by {
        if before.sent.contains((from, action)) {
            assert(is_backed(run, k - 1, from, action));
            match action {
                ActionView::SendRequestVote { request, .. } => {
                    let c = choose|c: int|
                        0 <= c <= k - 1 && #[trigger] is_candidacy(run, c, from, action);
                    assert(is_candidacy(run, c, from, action));
                },
                ActionView::SendRequestVoteResponse { to, response } => {
                    if response.vote_granted {
                        lemma_has_backed(run, k - 1, k, from, response.term, to);
                    }
                },
                _ => {},
            }
        } else {
            assert(from == id);
            assert(before.nodes.contains_key(id));
            assert(run[k].nodes.contains_key(id));
            laws::lemma_where_actions_come_from(node, input, action);
            match action {
                ActionView::SendRequestVote { request, .. } => {
                    assert(is_candidacy(run, k, id, action));
                },
                ActionView::SendRequestVoteResponse { to, response } => {
                    if response.vote_granted {
                        laws::law_granted_votes_are_recorded(node, input, to, response);
                        let request = input->RequestVote_request;
                        let (candidate, asked) = choose|candidate: u64, asked: ActionView|
                            #[trigger] before.sent.contains((candidate, asked))
                                && safety::recipient(asked) == Some(id) && input
                                == safety::delivered(candidate, asked);
                        assert(is_backed(run, k - 1, candidate, asked));
                        let c = choose|c: int|
                            0 <= c <= k - 1 && #[trigger] is_candidacy(run, c, candidate, asked);
                        assert(actions[0] == action);
                        assert(stands(run, c, candidate, request.term));
                        assert(node.state.grants(request));
                        assert(is_as_recent(
                            safety::log_of(run, c, candidate),
                            safety::log_of(run, k, id),
                        ));
                        assert(stood_with(
                            run,
                            k,
                            candidate,
                            request.term,
                            safety::log_of(run, k, id),
                        ));
                        assert(backs_at(run, k, id, response.term, to));
                    }
                },
                _ => {},
            }
        }
    }
}

/// In a run, all votes are backed.
proof fn lemma_votes_are_backed(run: Seq<System>, peers: Seq<u64>, k: int)
    requires
        safety::is_run(run, peers),
        0 <= k < run.len(),
    ensures
        votes_are_backed(run, k),
    decreases k,
{
    if k > 0 {
        lemma_votes_are_backed(run, peers, k - 1);
        safety::lemma_identities(run, peers, k);
        safety::lemma_identities(run, peers, k - 1);
        let before = run[k - 1];
        assert(safety::is_step(run, k - 1));
        let (id, input) = choose|id: u64, input: Input| #[trigger]
            before.takes(id, input, run[k - 1 + 1]);
        lemma_backed_packets(run, peers, k, id, input);
        assert forall|other: u64| #[trigger] run[k].nodes.contains_key(other) implies has_backers(
            run,
            k,
            other,
        ) by {
            assert(before.nodes.contains_key(other));
            assert(has_backers(run, k - 1, other));
            let now = run[k].nodes[other];
            let was = before.nodes[other];
            if now.state.role != NodeRole::Follower {
                assert forall|voter: u64| #[trigger] now.votes_received.contains(
                    voter,
                ) implies has_backed(run, k, voter, now.state.current_term, other) by {
                    if was.state.role != NodeRole::Follower && was.votes_received.contains(voter)
                        && was.state.current_term == now.state.current_term {
                        lemma_has_backed(run, k - 1, k, voter, now.state.current_term, other);
                    } else if input is Tick {
                        assert(stands(run, k, other, now.state.current_term));
                        assert(backs_at(run, k, other, now.state.current_term, other));
                    } else {
                        let (from, action) = choose|from: u64, action: ActionView| #[trigger]
                            before.sent.contains((from, action)) && safety::recipient(action)
                                == Some(id) && input == safety::delivered(from, action);
                        assert(action is SendRequestVoteResponse);
                        assert(is_backed(run, k - 1, from, action));
                        lemma_has_backed(run, k - 1, k, voter, now.state.current_term, other);
                    }
                }
            }
        }
    }
}

/// Whether a log starts with the given entries.
pub open spec fn starts_with(log: Seq<LogEntry>, prefix: Seq<LogEntry>) -> bool {
    prefix.is_prefix_of(log)
}

/// The node `id` is in `term` at the moment `k`, with a log that starts with the given entries.
pub open spec fn holds_at(
    run: Seq<System>,
    k: int,
    id: u64,
    term: u64,
    prefix: Seq<LogEntry>,
) -> bool {
    &&& run[k].nodes.contains_key(id)
    &&& run[k].nodes[id].state.current_term == term
    &&& starts_with(safety::log_of(run, k, id), prefix)
}

/// The node `id` held the given entries in `term` at some moment up to `k`.
pub open spec fn has_held(
    run: Seq<System>,
    k: int,
    id: u64,
    term: u64,
    prefix: Seq<LogEntry>,
) -> bool {
    exists|j: int| 0 <= j <= k && #[trigger] holds_at(run, j, id, term, prefix)
}

/// The nodes of `quorum` are a majority of the cluster, and each has held the given entries in
/// `term` by the moment `k`.
pub open spec fn is_held_by(
    run: Seq<System>,
    peers: Seq<u64>,
    k: int,
    term: u64,
    prefix: Seq<LogEntry>,
    quorum: Set<u64>,
) -> bool {
    &&& quorum.finite()
    &&& quorum.subset_of(peers.to_set())
    &&& quorum.len() >= peers.len() as int / 2 + 1
    &&& forall|id: u64| #[trigger] quorum.contains(id) ==> has_held(run, k, id, term, prefix)
}

/// The entry at `index` of the log of a leader of `term`, at the moment `k`, is of that term, and a
/// majority has held the log up to it in that term.
pub open spec fn is_committed(
    run: Seq<System>,
    peers: Seq<u64>,
    k: int,
    leader: u64,
    term: u64,
    index: int,
) -> bool {
    let log = safety::log_of(run, k, leader);
    &&& 0 <= k < run.len()
    &&& safety::leads(run, k, leader, term)
    &&& 1 <= index < log.len()
    &&& log[index].term == term
    &&& exists|quorum: Set<u64>|
        #[trigger] is_held_by(run, peers, k, term, log.take(index + 1), quorum)
}

/// A follower that holds the first entries of a leader's log keeps them when it accepts what a
/// leader cut from a log that has them too, or has not come so far yet.
proof fn lemma_merge_keeps(
    own: Seq<LogEntry>,
    leaders: Seq<LogEntry>,
    request: AppendEntriesView,
    prefix: Seq<LogEntry>,
)
    requires
        safety::has_real_terms(own),
        safety::has_real_terms(leaders),
        safety::match_up(own, leaders),
        safety::is_cut_from(request, leaders),
        super::log::term_of(own, request.prev_log_index as int) == request.prev_log_term,
        starts_with(own, prefix),
        starts_with(leaders, prefix) || starts_with(prefix, leaders),
    ensures
        starts_with(
            model::merged(own, request.prev_log_index + 1, request.entries),
            prefix,
        ),
{
    let start = request.prev_log_index + 1;
    let entries = request.entries;
    safety::lemma_merge(own, leaders, request);
    if !starts_with(leaders, prefix) {
        if request.prev_log_index < leaders.len() {
            assert forall|i: int| 0 <= i < entries.len() implies start + i < own.len() && own[start
                + i].term == (#[trigger] entries[i]).term by {
                assert(entries[i] == leaders[start + i]);
                assert(leaders[start + i] == prefix[start + i]);
                assert(prefix[start + i] == own[start + i]);
            }
        }
        model::lemma_already_held_scan(own, start, entries, entries.len() as int);
    }
}

/// The logs that a leader has at two moments of its term: one starts with the other.
pub proof fn lemma_comparable(
    run: Seq<System>,
    peers: Seq<u64>,
    i: int,
    j: int,
    leader: u64,
    term: u64,
)
    requires
        safety::is_run(run, peers),
        0 <= i < run.len(),
        0 <= j < run.len(),
        safety::leads(run, i, leader, term),
        safety::leads(run, j, leader, term),
    ensures
        starts_with(safety::log_of(run, i, leader), safety::log_of(run, j, leader)) || starts_with(
            safety::log_of(run, j, leader),
            safety::log_of(run, i, leader),
        ),
{
    if i <= j {
        law_leaders_only_append(run, peers, i, j, leader, term);
    } else {
        law_leaders_only_append(run, peers, j, i, leader, term);
    }
}

/// Two logs with which a third starts: one starts with the other.
pub proof fn lemma_two_prefixes(log: Seq<LogEntry>, a: Seq<LogEntry>, b: Seq<LogEntry>)
    requires
        starts_with(log, a),
        starts_with(log, b),
        a.len() <= b.len(),
    ensures
        starts_with(b, a),
{
    assert(a =~= b.take(a.len() as int)) by {
        assert forall|n: int| 0 <= n < a.len() implies a[n] == b[n] by {
            assert(a[n] == log[n]);
            assert(b[n] == log[n]);
        }
    }
}

/// All leaders of the terms after `term` up to `bound`, before the moment `w`, have the given
/// entries.
pub open spec fn later_leaders_have(
    run: Seq<System>,
    w: int,
    term: u64,
    bound: u64,
    prefix: Seq<LogEntry>,
) -> bool {
    forall|h: int, from: u64, other: u64|
        0 <= h < w && term < other <= bound && #[trigger] safety::leads(run, h, from, other)
            ==> starts_with(safety::log_of(run, h, from), prefix)
}

/// A node that holds the first entries of the log of a leader still holds them a moment later, if
/// all later leaders have them.
pub proof fn lemma_keeps(
    run: Seq<System>,
    peers: Seq<u64>,
    k: int,
    leader: u64,
    term: u64,
    prefix: Seq<LogEntry>,
    w: int,
    id: u64,
)
    requires
        safety::is_run(run, peers),
        0 <= k < run.len(),
        safety::leads(run, k, leader, term),
        starts_with(safety::log_of(run, k, leader), prefix),
        0 < w < run.len(),
        run[w - 1].nodes.contains_key(id),
        run[w - 1].nodes[id].state.current_term >= term,
        starts_with(safety::log_of(run, w - 1, id), prefix),
        later_leaders_have(run, w, term, run[w].nodes[id].state.current_term, prefix),
    ensures
        run[w].nodes.contains_key(id),
        starts_with(safety::log_of(run, w, id), prefix),
{
    safety::lemma_logs(run, peers, w - 1);
    safety::lemma_logs(run, peers, model::max(w - 1, k));
    let before = run[w - 1];
    assert(safety::is_step(run, w - 1));
    let (taker, input) = choose|taker: u64, input: Input| #[trigger]
        before.takes(taker, input, run[w - 1 + 1]);
    let node = before.nodes[id];
    let own = safety::log_of(run, w - 1, id);
    let new = safety::log_of(run, w, id);
    if taker == id {
        if input is Propose && node.state.role == NodeRole::Leader {
            assert(new.drop_last() =~= own);
            assert(prefix =~= new.take(prefix.len() as int)) by {
                assert(own.take(prefix.len() as int) =~= new.take(prefix.len() as int));
            }
        } else if input is AppendEntries && node.state.accepts(input->AppendEntries_request) {
            let request = input->AppendEntries_request;
            let (from, action) = choose|from: u64, action: ActionView| #[trigger]
                before.sent.contains((from, action)) && safety::recipient(action) == Some(id)
                    && input == safety::delivered(from, action);
            assert(safety::logs_are_sound(run, w - 1));
            assert(safety::is_cut(run, w - 1, from, action));
            let h = choose|h: int|
                0 <= h <= w - 1 && #[trigger] safety::is_cut_at(run, h, from, request);
            let leaders = safety::log_of(run, h, from);
            assert(safety::match_up(own, leaders));
            assert(request.term >= term);
            assert(run[w].nodes[id].state.current_term == request.term);
            assert(safety::leads(run, h, from, request.term));
            if request.term == term {
                safety::law_one_leader_per_term(run, peers, h, k, from, leader, term);
                lemma_comparable(run, peers, h, k, leader, term);
                if leaders.len() >= prefix.len() {
                    if starts_with(safety::log_of(run, k, leader), leaders) {
                        lemma_two_prefixes(safety::log_of(run, k, leader), prefix, leaders);
                    } else {
                        assert(prefix =~= leaders.take(prefix.len() as int));
                    }
                } else {
                    lemma_shorter(safety::log_of(run, k, leader), leaders, prefix);
                }
            }
            lemma_merge_keeps(own, leaders, request, prefix);
        } else {
            assert(new == own);
        }
    }
}

/// A log that is shorter than the first entries of another, with which it is comparable, is part
/// of them.
proof fn lemma_shorter(log: Seq<LogEntry>, other: Seq<LogEntry>, prefix: Seq<LogEntry>)
    requires
        starts_with(log, prefix),
        other.len() < prefix.len(),
        starts_with(log, other) || starts_with(other, log),
    ensures
        starts_with(prefix, other),
{
    if starts_with(log, other) {
        lemma_two_prefixes(log, other, prefix);
    }
}

/// A node that holds the first entries of the log of a leader goes on to hold them, as long as all
/// later leaders have them.
proof fn lemma_retains(
    run: Seq<System>,
    peers: Seq<u64>,
    k: int,
    leader: u64,
    term: u64,
    prefix: Seq<LogEntry>,
    j: int,
    w: int,
    id: u64,
    bound: u64,
)
    requires
        safety::is_run(run, peers),
        0 <= k < run.len(),
        safety::leads(run, k, leader, term),
        starts_with(safety::log_of(run, k, leader), prefix),
        0 <= j <= w < run.len(),
        holds_at(run, j, id, term, prefix),
        run[w].nodes[id].state.current_term <= bound,
        later_leaders_have(run, w, term, bound, prefix),
    ensures
        run[w].nodes.contains_key(id),
        starts_with(safety::log_of(run, w, id), prefix),
    decreases w - j,
{
    if j < w {
        safety::lemma_votes_stay(run, peers, j, w - 1, id);
        safety::lemma_votes_stay(run, peers, w - 1, w, id);
        lemma_retains(run, peers, k, leader, term, prefix, j, w - 1, id, bound);
        lemma_keeps(run, peers, k, leader, term, prefix, w, id);
    }
}

/// As long as a node runs for leader in a term, its log does not change.
proof fn lemma_candidate_log(run: Seq<System>, peers: Seq<u64>, c: int, m: int, id: u64, term: u64)
    requires
        safety::is_run(run, peers),
        0 <= c <= m < run.len(),
        run[c].nodes.contains_key(id),
        run[c].nodes[id].state.current_term == term,
        run[m].nodes[id].state.current_term == term,
        run[m].nodes[id].state.role == NodeRole::Candidate,
    ensures
        safety::log_of(run, c, id) == safety::log_of(run, m, id),
    decreases m - c,
{
    if c < m {
        safety::lemma_votes_stay(run, peers, c, m - 1, id);
        safety::lemma_votes_stay(run, peers, m - 1, m, id);
        if run[m - 1].nodes[id].state.role != NodeRole::Candidate {
            safety::lemma_no_second_candidacy(run, peers, m - 1, m, id);
        }
        lemma_candidate_log(run, peers, c, m - 1, id, term);
        assert(safety::is_step(run, m - 1));
        let (taker, input) = choose|taker: u64, input: Input| #[trigger]
            run[m - 1].takes(taker, input, run[m - 1 + 1]);
    }
}

/// When a node first leads in a term, it has the log that it had when it stood in that term, and
/// had it the moment before.
proof fn lemma_standing_log(run: Seq<System>, peers: Seq<u64>, c: int, first: int, id: u64, term: u64)
    requires
        safety::is_run(run, peers),
        0 <= c <= first < run.len(),
        stands(run, c, id, term),
        safety::leads(run, first, id, term),
        forall|i: int| 0 <= i < first ==> !#[trigger] safety::leads(run, i, id, term),
    ensures
        first > 0,
        run[first - 1].nodes.contains_key(id),
        safety::log_of(run, c, id) == safety::log_of(run, first, id),
        safety::log_of(run, first - 1, id) == safety::log_of(run, first, id),
{
    safety::lemma_identities(run, peers, 0);
    assert(first > 0) by {
        if first == 0 {
            assert(run[0].nodes.contains_key(id));
        }
    }
    assert(safety::is_step(run, first - 1));
    let before = run[first - 1];
    let (taker, input) = choose|taker: u64, input: Input| #[trigger]
        before.takes(taker, input, run[first - 1 + 1]);
    assert(before.nodes.contains_key(id));
    assert(!safety::leads(run, first - 1, id, term));
    if c < first {
        assert(!safety::leads(run, c, id, term));
        safety::lemma_votes_stay(run, peers, c, first - 1, id);
        safety::lemma_votes_stay(run, peers, first - 1, first, id);
        assert(before.nodes[id].state.role == NodeRole::Candidate);
        lemma_candidate_log(run, peers, c, first - 1, id, term);
    }
}

/// Two logs that end with entries of the same term: the longer one starts with the shorter one.
proof fn lemma_same_last_term(
    run: Seq<System>,
    peers: Seq<u64>,
    i: int,
    a: u64,
    j: int,
    b: u64,
)
    requires
        safety::is_run(run, peers),
        0 <= i < run.len(),
        0 <= j < run.len(),
        run[i].nodes.contains_key(a),
        run[j].nodes.contains_key(b),
        1 < safety::log_of(run, i, a).len() <= safety::log_of(run, j, b).len(),
        safety::log_of(run, i, a).last().term == safety::log_of(run, j, b).last().term,
    ensures
        starts_with(safety::log_of(run, j, b), safety::log_of(run, i, a)),
{
    let short = safety::log_of(run, i, a);
    let long = safety::log_of(run, j, b);
    let term = short.last().term;
    let m = short.len() - 1;
    let n = long.len() - 1;
    lemma_origin(run, peers, i, a, m);
    lemma_origin(run, peers, j, b, n);
    let (g, x) = choose|g: int, x: u64|
        0 <= g <= i && #[trigger] safety::leads(run, g, x, short[m].term) && m < safety::log_of(
            run,
            g,
            x,
        ).len() && safety::log_of(run, g, x).take(m + 1) == short.take(m + 1);
    let (h, y) = choose|h: int, y: u64|
        0 <= h <= j && #[trigger] safety::leads(run, h, y, long[n].term) && n < safety::log_of(
            run,
            h,
            y,
        ).len() && safety::log_of(run, h, y).take(n + 1) == long.take(n + 1);
    safety::law_one_leader_per_term(run, peers, g, h, x, y, term);
    let first = safety::log_of(run, g, x);
    let second = safety::log_of(run, h, x);
    assert(short.take(m + 1) =~= short);
    assert(long.take(n + 1) =~= long);
    lemma_comparable(run, peers, g, h, x, term);
    if starts_with(second, first) {
        assert(short =~= second.take(short.len() as int)) by {
            assert(first.take(short.len() as int) =~= second.take(short.len() as int));
        }
        lemma_two_prefixes(second, short, long);
    } else {
        assert(long =~= first.take(long.len() as int)) by {
            assert(second.take(long.len() as int) =~= first.take(long.len() as int));
        }
        lemma_two_prefixes(first, short, long);
    }
}

/// Every leader of a later term has what is committed.
pub proof fn lemma_leader_has_all(
    run: Seq<System>,
    peers: Seq<u64>,
    k: int,
    leader: u64,
    term: u64,
    index: int,
    j: int,
    other: u64,
    later: u64,
)
    requires
        safety::is_run(run, peers),
        is_committed(run, peers, k, leader, term, index),
        0 <= j < run.len(),
        safety::leads(run, j, other, later),
        term < later,
    ensures
        starts_with(
            safety::log_of(run, j, other),
            safety::log_of(run, k, leader).take(index + 1),
        ),
    decreases later, 1int,
{
    let committed = safety::log_of(run, k, leader);
    let prefix = committed.take(index + 1);
    let quorum = choose|quorum: Set<u64>| #[trigger]
        is_held_by(run, peers, k, term, prefix, quorum);
    let first = lemma_first_moment(run, j, other, later);

    // Some node has both held the entries and voted for the leader.
    safety::lemma_identities(run, peers, first);
    safety::lemma_votes_are_cast(run, peers, first);
    lemma_votes_are_backed(run, peers, first);
    let winner = run[first].nodes[other];
    let voters = winner.votes_received;
    assert(voters.subset_of(peers.to_set()));
    state::law_majorities_overlap(winner.state, quorum, voters);
    let id = choose|id: u64| quorum.contains(id) && voters.contains(id);
    assert(has_held(run, k, id, term, prefix));
    let held = choose|held: int|
        0 <= held <= k && #[trigger] holds_at(run, held, id, term, prefix);
    assert(has_backers(run, first, other));
    assert(has_backed(run, first, id, later, other));
    let w = choose|w: int| 0 <= w <= first && #[trigger] backs_at(run, w, id, later, other);
    if w <= held {
        safety::lemma_votes_stay(run, peers, w, held, id);
        assert(false);
    }

    // It still held them when it voted.
    assert(later_leaders_have(run, w, term, later, prefix)) by {
        assert forall|h: int, from: u64, between: u64|
            0 <= h < w && term < between <= later && #[trigger] safety::leads(
                run,
                h,
                from,
                between,
            ) implies starts_with(safety::log_of(run, h, from), prefix) by {
            if between == later {
                safety::law_one_leader_per_term(run, peers, h, first, from, other, later);
                assert(false);
            }
            lemma_leader_has_all(run, peers, k, leader, term, index, h, from, between);
        }
    }
    assert(starts_with(committed, prefix));
    lemma_retains(run, peers, k, leader, term, prefix, held, w, id, later);
    let voted = safety::log_of(run, w, id);

    // The log of the leader was as recent.
    assert(stood_with(run, w, other, later, voted));
    let c = choose|c: int|
        0 <= c <= w && #[trigger] stands(run, c, other, later) && is_as_recent(
            safety::log_of(run, c, other),
            voted,
        );
    lemma_standing_log(run, peers, c, first, other, later);
    let log = safety::log_of(run, first, other);
    lemma_as_recent_log(run, peers, k, leader, term, index, w, id, first, other, later);

    // It has only grown since.
    law_leaders_only_append(run, peers, first, j, other, later);
    assert(prefix =~= safety::log_of(run, j, other).take(prefix.len() as int)) by {
        assert(log.take(prefix.len() as int) =~= safety::log_of(run, j, other).take(
            prefix.len() as int,
        ));
    }
}

/// A log as recent as one that has what is committed has it too, when its owner comes to lead.
proof fn lemma_as_recent_log(
    run: Seq<System>,
    peers: Seq<u64>,
    k: int,
    leader: u64,
    term: u64,
    index: int,
    w: int,
    id: u64,
    first: int,
    other: u64,
    later: u64,
)
    requires
        safety::is_run(run, peers),
        is_committed(run, peers, k, leader, term, index),
        0 <= w <= first < run.len(),
        run[w].nodes.contains_key(id),
        starts_with(safety::log_of(run, w, id), safety::log_of(run, k, leader).take(index + 1)),
        first > 0,
        safety::leads(run, first, other, later),
        forall|i: int| 0 <= i < first ==> !#[trigger] safety::leads(run, i, other, later),
        run[first - 1].nodes.contains_key(other),
        safety::log_of(run, first - 1, other) == safety::log_of(run, first, other),
        is_as_recent(safety::log_of(run, first, other), safety::log_of(run, w, id)),
        term < later,
    ensures
        starts_with(
            safety::log_of(run, first, other),
            safety::log_of(run, k, leader).take(index + 1),
        ),
    decreases later, 0int,
{
    let committed = safety::log_of(run, k, leader);
    let prefix = committed.take(index + 1);
    let voted = safety::log_of(run, w, id);
    let log = safety::log_of(run, first, other);
    safety::lemma_logs(run, peers, k);
    safety::lemma_logs(run, peers, first);
    assert(safety::logs_are_sound(run, k));
    assert(safety::is_sound(run, k, run[k].nodes[leader]));
    assert(term >= 1);
    law_terms_go_up(run, peers, w, id);
    law_terms_go_up(run, peers, first, other);
    law_terms_go_up(run, peers, k, leader);
    assert(voted[index] == prefix[index]);
    assert(voted[index].term == term);
    assert(voted[index].term <= voted[voted.len() - 1].term);
    let last = log.len() - 1;
    safety::lemma_identities(run, peers, first);
    assert(log.len() >= 1);
    assert(log[last].term >= term);
    assert(last >= 1) by {
        assert(safety::logs_are_sound(run, first));
        assert(safety::is_sound(run, first, run[first].nodes[other]));
    }
    if log[last].term == voted.last().term {
        lemma_same_last_term(run, peers, w, id, first, other);
        assert(prefix =~= log.take(prefix.len() as int)) by {
            assert(voted.take(prefix.len() as int) =~= log.take(prefix.len() as int));
        }
    } else {
        let between = log[last].term;
        lemma_origin(run, peers, first - 1, other, last);
        let (h, from) = choose|h: int, from: u64|
            0 <= h <= first - 1 && #[trigger] safety::leads(run, h, from, between) && last
                < safety::log_of(run, h, from).len() && safety::log_of(run, h, from).take(last + 1)
                == log.take(last + 1);
        if between == later {
            safety::law_one_leader_per_term(run, peers, h, first, from, other, later);
            assert(false);
        }
        lemma_leader_has_all(run, peers, k, leader, term, index, h, from, between);
        let source = safety::log_of(run, h, from);
        assert(source[last] == source.take(last + 1)[last]);
        assert(log[last] == log.take(last + 1)[last]);
        if last <= index {
            assert(source[last] == prefix[last]);
            assert(committed[last].term <= committed[index].term);
            assert(false);
        }
        assert(prefix =~= log.take(prefix.len() as int)) by {
            assert(source.take(last + 1).take(prefix.len() as int) =~= source.take(
                prefix.len() as int,
            ));
            assert(log.take(last + 1).take(prefix.len() as int) =~= log.take(prefix.len() as int));
        }
    }
}

} // verus!
