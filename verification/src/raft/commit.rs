//! What is committed in a cluster is never lost.

use super::history;
use super::laws;
use super::laws::Input;
use super::log;
use super::message::AppendEntriesView;
use super::model;
use super::model::ActionView;
use super::safety;
use super::safety::System;
use super::state;
use super::state::NodeRole;
use vstd::prelude::*;

verus! {

/// The log of the node `id` at the moment `j` starts with the log of the leader at the moment `h`,
/// which ends at `index`; both are in `term`.
spec fn acked_at(
    run: Seq<System>,
    j: int,
    h: int,
    id: u64,
    leader: u64,
    term: u64,
    index: usize,
) -> bool {
    &&& run[j].nodes.contains_key(id)
    &&& run[j].nodes[id].state.current_term == term
    &&& safety::leads(run, h, leader, term)
    &&& history::starts_with(safety::log_of(run, j, id), safety::log_of(run, h, leader))
    &&& safety::log_of(run, h, leader).len() == index + 1
}

/// By the moment `k` the node `id` had a log that started with one of the leader's, up to `index`.
spec fn has_acked(run: Seq<System>, k: int, id: u64, leader: u64, term: u64, index: usize) -> bool {
    exists|j: int, h: int|
        0 <= j <= k && 0 <= h <= k && #[trigger] acked_at(run, j, h, id, leader, term, index)
}

/// The action confirms no entries, or its sender had what it confirms, from a leader of its term.
spec fn is_confirmed(run: Seq<System>, k: int, from: u64, action: ActionView) -> bool {
    action matches ActionView::SendAppendEntriesResponse { to, response } ==> response.success ==> {
        &&& response.match_index is Some
        &&& exists|leader: u64| #[trigger]
            has_acked(run, k, from, leader, response.term, response.match_index->0)
    }
}

/// No node is counted twice.
pub open spec fn counts_once(progress: Seq<(u64, usize)>) -> bool {
    forall|i: int, j: int|
        #![trigger progress[i], progress[j]]
        0 <= i < j < progress.len() && progress[j].1 >= 1 ==> progress[i].0 != progress[j].0
}

/// What a leader has recorded of the other nodes is true, and no node is counted twice.
spec fn counts_truly(run: Seq<System>, peers: Seq<u64>, k: int, leader: u64) -> bool {
    let state = run[k].nodes[leader].state;
    state.role == NodeRole::Leader ==> {
        &&& counts_once(state.match_index)
        &&& forall|i: int|
            0 <= i < state.match_index.len() ==> {
                let (id, index) = #[trigger] state.match_index[i];
                &&& peers.contains(id)
                &&& id != leader
                &&& index >= 1 ==> has_acked(run, k, id, leader, state.current_term, index)
            }
    }
}

/// The other nodes are nodes of the cluster.
proof fn lemma_others(peers: Seq<u64>, own_id: u64, i: int)
    requires
        0 <= i < state::others(peers, own_id).len(),
    ensures
        peers.contains(state::others(peers, own_id)[i]),
        state::others(peers, own_id)[i] != own_id,
    decreases peers.len(),
{
    if peers.len() > 0 {
        let front = peers.drop_last();
        if i < state::others(front, own_id).len() {
            lemma_others(front, own_id, i);
            let at = choose|at: int|
                0 <= at < front.len() && front[at] == state::others(front, own_id)[i];
            assert(peers[at] == state::others(peers, own_id)[i]);
        } else {
            assert(peers[peers.len() - 1] == peers.last());
        }
    }
}

/// What a leader counts stays true.
proof fn lemma_acks_stay(
    run: Seq<System>,
    j: int,
    k: int,
    id: u64,
    leader: u64,
    term: u64,
    index: usize,
)
    requires
        j <= k,
        has_acked(run, j, id, leader, term, index),
    ensures
        has_acked(run, k, id, leader, term, index),
{
    let (i, h) = choose|i: int, h: int|
        0 <= i <= j && 0 <= h <= j && #[trigger] acked_at(run, i, h, id, leader, term, index);
    assert(acked_at(run, i, h, id, leader, term, index));
}

/// A follower that accepts what a leader has sent has the leader's log up to its end, which is
/// where the request ends.
proof fn lemma_accepted_log(
    run: Seq<System>,
    peers: Seq<u64>,
    k: int,
    id: u64,
    request: AppendEntriesView,
    h: int,
    from: u64,
)
    requires
        safety::is_run(run, peers),
        0 < k < run.len(),
        run[k - 1].takes(id, Input::AppendEntries { request }, run[k]),
        run[k - 1].nodes[id].state.accepts(request),
        0 <= h < k,
        safety::is_cut_at(run, h, from, request),
    ensures
        history::starts_with(safety::log_of(run, k, id), safety::log_of(run, h, from)),
        safety::log_of(run, h, from).len() == request.prev_log_index + request.entries.len() + 1,
{
    safety::lemma_logs(run, peers, k);
    let node = run[k - 1].nodes[id];
    let own = safety::log_of(run, k - 1, id);
    let new = safety::log_of(run, k, id);
    let leaders = safety::log_of(run, h, from);
    let prev = request.prev_log_index as int;
    assert(safety::logs_are_sound(run, k - 1));
    assert(safety::is_sound(run, k - 1, node));
    assert(prev < leaders.len()) by {
        if prev >= leaders.len() {
            assert(own[prev].term == 0);
        }
    }
    laws::law_accepted_entries_are_held(node, request);
    let last = leaders.len() - 1;
    assert(new[last].term == leaders[last].term) by {
        if request.entries.len() > 0 {
            let i = request.entries.len() - 1;
            assert(new[prev + 1 + i].term == request.entries[i].term);
            assert(request.entries[i] == leaders[last]);
        } else {
            assert(new[prev] == new.take(prev + 1)[prev]);
            assert(own[prev] == own.take(prev + 1)[prev]);
        }
    }
    assert(safety::match_up(new, leaders));
    assert(new.take(last + 1) == leaders.take(last + 1));
    assert(leaders.take(last + 1) =~= leaders);
}

/// In a run, what is confirmed is true.
proof fn lemma_confirmed(run: Seq<System>, peers: Seq<u64>, k: int, from: u64, action: ActionView)
    requires
        safety::is_run(run, peers),
        0 <= k < run.len(),
        run[k].sent.contains((from, action)),
    ensures
        is_confirmed(run, k, from, action),
    decreases k,
{
    if k > 0 && action is SendAppendEntriesResponse
        && action->SendAppendEntriesResponse_response.success {
        let response = action->SendAppendEntriesResponse_response;
        let before = run[k - 1];
        assert(safety::is_step(run, k - 1));
        let (id, input) = choose|id: u64, input: Input| #[trigger]
            before.takes(id, input, run[k - 1 + 1]);
        if before.sent.contains((from, action)) {
            lemma_confirmed(run, peers, k - 1, from, action);
            let index = response.match_index->0;
            let leader = choose|leader: u64| #[trigger]
                has_acked(run, k - 1, from, leader, response.term, index);
            lemma_acks_stay(run, k - 1, k, from, leader, response.term, index);
        } else {
            laws::lemma_where_actions_come_from(before.nodes[id], input, action);
            let request = input->AppendEntries_request;
            let (sender, asked) = choose|sender: u64, asked: ActionView| #[trigger]
                before.sent.contains((sender, asked)) && safety::recipient(asked) == Some(id)
                    && input == safety::delivered(sender, asked);
            safety::lemma_logs(run, peers, k - 1);
            assert(safety::logs_are_sound(run, k - 1));
            assert(safety::is_cut(run, k - 1, sender, asked));
            let h = choose|h: int|
                0 <= h <= k - 1 && #[trigger] safety::is_cut_at(run, h, sender, request);
            lemma_accepted_log(run, peers, k, id, request, h, sender);
            safety::lemma_identities(run, peers, k);
            let index = response.match_index->0;
            assert(safety::log_of(run, k, id).len() <= usize::MAX);
            assert(acked_at(run, k, h, from, sender, response.term, index));
            assert(has_acked(run, k, from, sender, response.term, index));
        }
    }
}

/// What was confirmed in the term of a leader was confirmed to this leader.
proof fn lemma_own_acks(
    run: Seq<System>,
    peers: Seq<u64>,
    k: int,
    id: u64,
    leader: u64,
    term: u64,
    index: usize,
)
    requires
        safety::is_run(run, peers),
        0 <= k < run.len(),
        safety::leads(run, k, leader, term),
        exists|other: u64| #[trigger] has_acked(run, k, id, other, term, index),
    ensures
        has_acked(run, k, id, leader, term, index),
{
    let other = choose|other: u64| #[trigger] has_acked(run, k, id, other, term, index);
    let (j, h) = choose|j: int, h: int|
        0 <= j <= k && 0 <= h <= k && #[trigger] acked_at(run, j, h, id, other, term, index);
    safety::law_one_leader_per_term(run, peers, h, k, other, leader, term);
}

/// In a run, what a leader counts is true.
proof fn lemma_counts_truly(run: Seq<System>, peers: Seq<u64>, k: int, leader: u64)
    requires
        safety::is_run(run, peers),
        0 <= k < run.len(),
        run[k].nodes.contains_key(leader),
    ensures
        counts_truly(run, peers, k, leader),
    decreases k,
{
    safety::lemma_identities(run, peers, k);
    let state = run[k].nodes[leader].state;
    if k > 0 && state.role == NodeRole::Leader {
        let before = run[k - 1];
        safety::lemma_identities(run, peers, k - 1);
        assert(safety::is_step(run, k - 1));
        let (taker, input) = choose|taker: u64, input: Input| #[trigger]
            before.takes(taker, input, run[k - 1 + 1]);
        assert(before.nodes.contains_key(leader));
        let was = before.nodes[leader].state;
        let term = state.current_term;
        lemma_counts_truly(run, peers, k - 1, leader);
        if was.role == NodeRole::Leader {
            laws::law_term_never_decreases(before.nodes[taker], input);
            assert(was.current_term == term);
            assert(safety::leads(run, k - 1, leader, term));
            if taker == leader && input is AppendEntriesResponse
                && input->AppendEntriesResponse_response.success
                && input->AppendEntriesResponse_response.term == term
                && input->AppendEntriesResponse_response.match_index is Some {
                let from = input->AppendEntriesResponse_from;
                let response = input->AppendEntriesResponse_response;
                let index = response.match_index->0;
                let (sender, action) = choose|sender: u64, action: ActionView| #[trigger]
                    before.sent.contains((sender, action)) && safety::recipient(action) == Some(
                        leader,
                    ) && input == safety::delivered(sender, action);
                lemma_confirmed(run, peers, k - 1, sender, action);
                lemma_own_acks(run, peers, k - 1, from, leader, term, index);
                let at = model::position_of(was.match_index, from);
                laws::lemma_position_is_first(was.match_index, from);
                assert(state.match_index == model::with_progress(
                    was.match_index,
                    from,
                    index as int,
                ));
                assert forall|i: int| 0 <= i < state.match_index.len() implies {
                    let (id, index) = #[trigger] state.match_index[i];
                    &&& peers.contains(id)
                    &&& id != leader
                    &&& index >= 1 ==> has_acked(run, k, id, leader, term, index)
                } by {
                    let (id, known) = was.match_index[i];
                    if i == at {
                        lemma_acks_stay(run, k - 1, k, from, leader, term, index);
                    } else if known >= 1 {
                        lemma_acks_stay(run, k - 1, k, id, leader, term, known);
                    }
                }
                assert forall|i: int, j: int|
                    #![trigger state.match_index[i], state.match_index[j]]
                    0 <= i < j < state.match_index.len() && state.match_index[j].1
                        >= 1 implies state.match_index[i].0 != state.match_index[j].0 by {
                    assert(was.match_index[i].0 == state.match_index[i].0);
                    assert(was.match_index[j].0 == state.match_index[j].0);
                }
            } else {
                assert(state.match_index == was.match_index);
                assert forall|i: int| 0 <= i < state.match_index.len() implies {
                    let (id, index) = #[trigger] state.match_index[i];
                    &&& peers.contains(id)
                    &&& id != leader
                    &&& index >= 1 ==> has_acked(run, k, id, leader, term, index)
                } by {
                    let (id, known) = was.match_index[i];
                    if known >= 1 {
                        lemma_acks_stay(run, k - 1, k, id, leader, term, known);
                    }
                }
            }
        } else {
            assert(state.match_index == state::progress_of_others(peers, leader, 0));
            assert forall|i: int| 0 <= i < state.match_index.len() implies {
                let (id, index) = #[trigger] state.match_index[i];
                &&& peers.contains(id)
                &&& id != leader
                &&& index >= 1 ==> has_acked(run, k, id, leader, term, index)
            } by {
                lemma_others(peers, leader, i);
            }
        }
    }
}

/// The nodes that are known to hold the entry at `index`.
spec fn holder_ids(progress: Seq<(u64, usize)>, index: int) -> Set<u64>
    decreases progress.len(),
{
    if progress.len() == 0 {
        Set::empty()
    } else {
        let front = holder_ids(progress.drop_last(), index);
        if progress.last().1 >= index {
            front.insert(progress.last().0)
        } else {
            front
        }
    }
}

/// There are as many such nodes as were counted, if no node was counted twice.
proof fn lemma_holder_ids(progress: Seq<(u64, usize)>, index: int)
    requires
        index >= 1,
        counts_once(progress),
    ensures
        holder_ids(progress, index).finite(),
        holder_ids(progress, index).len() == model::holders(progress, index),
        forall|id: u64| #[trigger]
            holder_ids(progress, index).contains(id) ==> exists|i: int|
                0 <= i < progress.len() && (#[trigger] progress[i]).0 == id && progress[i].1
                    >= index,
    decreases progress.len(),
{
    if progress.len() > 0 {
        let front = progress.drop_last();
        assert(counts_once(front)) by {
            assert forall|i: int, j: int|
                #![trigger front[i], front[j]]
                0 <= i < j < front.len() && front[j].1 >= 1 implies front[i].0 != front[j].0 by {
                assert(front[i] == progress[i]);
                assert(front[j] == progress[j]);
            }
        }
        lemma_holder_ids(front, index);
        let last = progress.len() - 1;
        assert forall|id: u64| #[trigger] holder_ids(progress, index).contains(id) implies exists|
            i: int,
        |
            0 <= i < progress.len() && (#[trigger] progress[i]).0 == id && progress[i].1
                >= index by {
            if holder_ids(front, index).contains(id) {
                let i = choose|i: int|
                    0 <= i < front.len() && (#[trigger] front[i]).0 == id && front[i].1 >= index;
                assert(progress[i] == front[i]);
            } else {
                assert(progress[last].0 == id);
            }
        }
        if progress.last().1 >= index {
            assert(!holder_ids(front, index).contains(progress.last().0)) by {
                if holder_ids(front, index).contains(progress.last().0) {
                    let i = choose|i: int|
                        0 <= i < front.len() && (#[trigger] front[i]).0 == progress.last().0
                            && front[i].1 >= index;
                    assert(progress[i].0 == progress[last].0);
                }
            }
        }
    }
}

/// What a leader may commit, a majority has held.
proof fn lemma_majority(run: Seq<System>, peers: Seq<u64>, k: int, leader: u64, index: int)
    requires
        safety::is_run(run, peers),
        0 <= k < run.len(),
        run[k].nodes.contains_key(leader),
        run[k].nodes[leader].state.role == NodeRole::Leader,
        1 <= index <= run[k].nodes[leader].state.last_index(),
        run[k].nodes[leader].state.committable(index),
    ensures
        history::is_committed(
            run,
            peers,
            k,
            leader,
            run[k].nodes[leader].state.current_term,
            index,
        ),
{
    safety::lemma_identities(run, peers, k);
    lemma_counts_truly(run, peers, k, leader);
    let state = run[k].nodes[leader].state;
    let term = state.current_term;
    let prefix = state.log.take(index + 1);
    lemma_holder_ids(state.match_index, index);
    let others = holder_ids(state.match_index, index);
    let quorum = others.insert(leader);
    assert(safety::leads(run, k, leader, term));
    assert(!others.contains(leader)) by {
        if others.contains(leader) {
            let i = choose|i: int|
                0 <= i < state.match_index.len() && (#[trigger] state.match_index[i]).0 == leader
                    && state.match_index[i].1 >= index;
            assert(state.match_index[i].0 != leader);
        }
    }
    assert forall|id: u64| #[trigger] quorum.contains(id) implies history::has_held(
        run,
        k,
        id,
        term,
        prefix,
    ) && peers.to_set().contains(id) by {
        if id == leader {
            assert(history::holds_at(run, k, leader, term, prefix));
        } else {
            let i = choose|i: int|
                0 <= i < state.match_index.len() && (#[trigger] state.match_index[i]).0 == id
                    && state.match_index[i].1 >= index;
            let known = state.match_index[i].1;
            assert(has_acked(run, k, id, leader, term, known));
            let (j, h) = choose|j: int, h: int|
                0 <= j <= k && 0 <= h <= k && #[trigger] acked_at(
                    run,
                    j,
                    h,
                    id,
                    leader,
                    term,
                    known,
                );
            history::law_leaders_only_append(run, peers, h, k, leader, term);
            let leaders = safety::log_of(run, h, leader);
            history::lemma_two_prefixes(state.log, prefix, leaders);
            let own = safety::log_of(run, j, id);
            assert(prefix =~= own.take(prefix.len() as int)) by {
                assert(leaders.take(prefix.len() as int) =~= own.take(prefix.len() as int));
            }
            assert(history::holds_at(run, j, id, term, prefix));
        }
    }
    assert(history::is_held_by(run, peers, k, term, prefix, quorum));
}

/// The first entries of the log of the node `id` at the moment `k`, up to `index`, are committed
/// entries of a leader of the node's term or an earlier one.
pub open spec fn is_backed_by(
    run: Seq<System>,
    peers: Seq<u64>,
    k: int,
    id: u64,
    index: int,
    j: int,
    leader: u64,
    term: u64,
    bound: int,
) -> bool {
    &&& history::is_committed(run, peers, j, leader, term, bound)
    &&& index <= bound
    &&& term <= run[k].nodes[id].state.current_term
    &&& index < safety::log_of(run, k, id).len()
    &&& safety::log_of(run, k, id).take(index + 1) == safety::log_of(run, j, leader).take(index + 1)
}

/// All that the node `id` counts as committed at the moment `k` is committed.
pub open spec fn is_settled(run: Seq<System>, peers: Seq<u64>, k: int, id: u64) -> bool {
    let index = run[k].nodes[id].state.commit_index as int;
    &&& index < safety::log_of(run, k, id).len()
    &&& index > 0 ==> exists|j: int, leader: u64, term: u64, bound: int|
        #[trigger] is_backed_by(run, peers, k, id, index, j, leader, term, bound)
}

/// Whatever a node does, it keeps the entries that are committed.
proof fn lemma_keeps_committed(
    run: Seq<System>,
    peers: Seq<u64>,
    k: int,
    id: u64,
    index: int,
    j: int,
    leader: u64,
    term: u64,
    bound: int,
)
    requires
        safety::is_run(run, peers),
        0 < k < run.len(),
        0 <= index,
        run[k - 1].nodes.contains_key(id),
        is_backed_by(run, peers, k - 1, id, index, j, leader, term, bound),
    ensures
        run[k].nodes.contains_key(id),
        is_backed_by(run, peers, k, id, index, j, leader, term, bound),
{
    let committed = safety::log_of(run, j, leader);
    let prefix = committed.take(index + 1);
    let own = safety::log_of(run, k - 1, id);
    assert(history::starts_with(committed, prefix));
    assert(prefix =~= own.take(prefix.len() as int));
    safety::lemma_votes_stay(run, peers, k - 1, k, id);
    assert(history::later_leaders_have(run, k, term, run[k].nodes[id].state.current_term, prefix)) by {
        assert forall|h: int, from: u64, later: u64|
            0 <= h < k && term < later <= run[k].nodes[id].state.current_term
                && #[trigger] safety::leads(run, h, from, later) implies history::starts_with(
            safety::log_of(run, h, from),
            prefix,
        ) by {
            history::lemma_leader_has_all(run, peers, j, leader, term, bound, h, from, later);
            let log = safety::log_of(run, h, from);
            assert(prefix =~= log.take(prefix.len() as int)) by {
                assert(committed.take(bound + 1).take(index + 1) =~= prefix);
                assert(log.take(bound + 1).take(index + 1) =~= log.take(index + 1));
            }
        }
    }
    history::lemma_keeps(run, peers, j, leader, term, prefix, k, id);
    assert(safety::log_of(run, k, id).take(index + 1) =~= prefix);
}

/// In a run, what nodes count as committed is committed.
proof fn lemma_settled(run: Seq<System>, peers: Seq<u64>, k: int, id: u64)
    requires
        safety::is_run(run, peers),
        0 <= k < run.len(),
        run[k].nodes.contains_key(id),
    ensures
        is_settled(run, peers, k, id),
    decreases k,
{
    safety::lemma_identities(run, peers, k);
    let state = run[k].nodes[id].state;
    let index = state.commit_index as int;
    if k > 0 {
        let before = run[k - 1];
        safety::lemma_identities(run, peers, k - 1);
        assert(safety::is_step(run, k - 1));
        let (taker, input) = choose|taker: u64, input: Input| #[trigger]
            before.takes(taker, input, run[k - 1 + 1]);
        assert(before.nodes.contains_key(id));
        lemma_settled(run, peers, k - 1, id);
        let was = before.nodes[id].state;
        if index == was.commit_index {
            if index > 0 {
                let (j, leader, term, bound) = choose|j: int, leader: u64, term: u64, bound: int|
                    #[trigger] is_backed_by(
                        run,
                        peers,
                        k - 1,
                        id,
                        index,
                        j,
                        leader,
                        term,
                        bound,
                    );
                lemma_keeps_committed(run, peers, k, id, index, j, leader, term, bound);
            }
        } else if input is Restart {
            assert(index == 0);
        } else if input is AppendEntries {
            let request = input->AppendEntries_request;
            let (from, action) = choose|from: u64, action: ActionView| #[trigger]
                before.sent.contains((from, action)) && safety::recipient(action) == Some(id)
                    && input == safety::delivered(from, action);
            safety::lemma_logs(run, peers, k - 1);
            assert(safety::logs_are_sound(run, k - 1));
            assert(safety::is_cut(run, k - 1, from, action));
            let h = choose|h: int|
                0 <= h <= k - 1 && #[trigger] safety::is_cut_at(run, h, from, request);
            lemma_accepted_log(run, peers, k, id, request, h, from);
            lemma_settled(run, peers, h, from);
            let known = run[h].nodes[from].state.commit_index as int;
            let (j, leader, term, bound) = choose|j: int, leader: u64, term: u64, bound: int|
                #[trigger] is_backed_by(run, peers, h, from, known, j, leader, term, bound);
            let new = safety::log_of(run, k, id);
            let leaders = safety::log_of(run, h, from);
            let committed = safety::log_of(run, j, leader);
            assert(new.take(index + 1) =~= leaders.take(index + 1));
            assert(leaders.take(known + 1).take(index + 1) =~= leaders.take(index + 1));
            assert(committed.take(known + 1).take(index + 1) =~= committed.take(index + 1));
            assert(is_backed_by(run, peers, k, id, index, j, leader, term, bound));
        } else {
            assert(was.role == NodeRole::Leader);
            assert(state.role == NodeRole::Leader);
            laws::law_commit_needs_majority_and_own_term(before.nodes[id], input);
            lemma_majority(run, peers, k, id, index);
            assert(is_backed_by(
                run,
                peers,
                k,
                id,
                index,
                k,
                id,
                state.current_term,
                index,
            ));
        }
    }
}

/// What is committed on one node stays in its log for good, in spite of restarts.
pub proof fn law_committed_entries_stay(
    run: Seq<System>,
    peers: Seq<u64>,
    i: int,
    j: int,
    id: u64,
    index: int,
)
    requires
        safety::is_run(run, peers),
        0 <= i <= j < run.len(),
        run[i].nodes.contains_key(id),
        0 <= index <= run[i].nodes[id].state.commit_index,
    ensures
        run[j].nodes.contains_key(id),
        index < safety::log_of(run, i, id).len(),
        history::starts_with(safety::log_of(run, j, id), safety::log_of(run, i, id).take(index + 1)),
{
    lemma_settled(run, peers, i, id);
    let known = run[i].nodes[id].state.commit_index as int;
    let log = safety::log_of(run, i, id);
    safety::lemma_votes_stay(run, peers, i, j, id);
    if index == 0 {
        safety::lemma_logs(run, peers, j);
        safety::lemma_logs(run, peers, i);
        assert(safety::logs_are_sound(run, i));
        assert(safety::logs_are_sound(run, j));
        assert(safety::is_sound(run, i, run[i].nodes[id]));
        assert(safety::is_sound(run, j, run[j].nodes[id]));
        assert(log.take(1) =~= safety::log_of(run, j, id).take(1));
    } else {
        let (m, leader, term, bound) = choose|m: int, leader: u64, term: u64, bound: int|
            #[trigger] is_backed_by(run, peers, i, id, known, m, leader, term, bound);
        lemma_committed_stays(run, peers, i, j, id, known, m, leader, term, bound);
        let later = safety::log_of(run, j, id);
        assert(later.take(known + 1).take(index + 1) =~= later.take(index + 1));
        assert(log.take(known + 1).take(index + 1) =~= log.take(index + 1));
        assert(log.take(index + 1) =~= later.take(index + 1));
    }
}

/// Entries that are committed stay in a log.
proof fn lemma_committed_stays(
    run: Seq<System>,
    peers: Seq<u64>,
    i: int,
    j: int,
    id: u64,
    index: int,
    m: int,
    leader: u64,
    term: u64,
    bound: int,
)
    requires
        safety::is_run(run, peers),
        0 <= i <= j < run.len(),
        0 <= index,
        run[i].nodes.contains_key(id),
        is_backed_by(run, peers, i, id, index, m, leader, term, bound),
    ensures
        run[j].nodes.contains_key(id),
        is_backed_by(run, peers, j, id, index, m, leader, term, bound),
    decreases j - i,
{
    if i < j {
        lemma_committed_stays(run, peers, i, j - 1, id, index, m, leader, term, bound);
        lemma_keeps_committed(run, peers, j, id, index, m, leader, term, bound);
    }
}

/// Whatever one node has committed at any moment, every leader of a later term has at every moment:
/// no failure of a leader loses it.
pub proof fn law_leaders_have_all_that_is_committed(
    run: Seq<System>,
    peers: Seq<u64>,
    i: int,
    id: u64,
    index: int,
    j: int,
    leader: u64,
    term: u64,
)
    requires
        safety::is_run(run, peers),
        0 <= i < run.len(),
        run[i].nodes.contains_key(id),
        0 <= index <= run[i].nodes[id].state.commit_index,
        0 <= j < run.len(),
        safety::leads(run, j, leader, term),
        term > run[i].nodes[id].state.current_term,
    ensures
        index < safety::log_of(run, i, id).len(),
        history::starts_with(safety::log_of(run, j, leader), safety::log_of(run, i, id).take(index + 1)),
{
    lemma_settled(run, peers, i, id);
    let known = run[i].nodes[id].state.commit_index as int;
    let log = safety::log_of(run, i, id);
    let later = safety::log_of(run, j, leader);
    if index == 0 {
        safety::lemma_logs(run, peers, j);
        safety::lemma_logs(run, peers, i);
        assert(safety::logs_are_sound(run, i));
        assert(safety::logs_are_sound(run, j));
        assert(safety::is_sound(run, i, run[i].nodes[id]));
        assert(safety::is_sound(run, j, run[j].nodes[leader]));
        assert(log.take(1) =~= later.take(1));
    } else {
        let (m, first, early, bound) = choose|m: int, first: u64, early: u64, bound: int|
            #[trigger] is_backed_by(run, peers, i, id, known, m, first, early, bound);
        history::lemma_leader_has_all(run, peers, m, first, early, bound, j, leader, term);
        let committed = safety::log_of(run, m, first);
        assert(committed.take(bound + 1).take(index + 1) =~= committed.take(index + 1));
        assert(committed.take(known + 1).take(index + 1) =~= committed.take(index + 1));
        assert(log.take(known + 1).take(index + 1) =~= log.take(index + 1));
        assert(later.take(bound + 1).take(index + 1) =~= later.take(index + 1));
        assert(log.take(index + 1) =~= later.take(index + 1));
    }
}

/// All nodes commit the same entries at the same indices, at all moments.
pub proof fn law_nodes_commit_the_same_entries(
    run: Seq<System>,
    peers: Seq<u64>,
    i: int,
    a: u64,
    j: int,
    b: u64,
    index: int,
)
    requires
        safety::is_run(run, peers),
        0 <= i < run.len(),
        0 <= j < run.len(),
        run[i].nodes.contains_key(a),
        run[j].nodes.contains_key(b),
        0 <= index <= run[i].nodes[a].state.commit_index,
        index <= run[j].nodes[b].state.commit_index,
    ensures
        index < safety::log_of(run, i, a).len(),
        index < safety::log_of(run, j, b).len(),
        safety::log_of(run, i, a).take(index + 1) == safety::log_of(run, j, b).take(index + 1),
{
    lemma_settled(run, peers, i, a);
    lemma_settled(run, peers, j, b);
    let m = run[i].nodes[a].state.commit_index as int;
    let n = run[j].nodes[b].state.commit_index as int;
    let x = safety::log_of(run, i, a);
    let y = safety::log_of(run, j, b);
    if index == 0 {
        safety::lemma_logs(run, peers, j);
        safety::lemma_logs(run, peers, i);
        assert(safety::logs_are_sound(run, i));
        assert(safety::logs_are_sound(run, j));
        assert(safety::is_sound(run, i, run[i].nodes[a]));
        assert(safety::is_sound(run, j, run[j].nodes[b]));
        assert(x.take(1) =~= y.take(1));
    } else {
        let (g, first, early, low) = choose|g: int, first: u64, early: u64, low: int|
            #[trigger] is_backed_by(run, peers, i, a, m, g, first, early, low);
        let (h, second, late, high) = choose|h: int, second: u64, late: u64, high: int|
            #[trigger] is_backed_by(run, peers, j, b, n, h, second, late, high);
        let p = safety::log_of(run, g, first);
        let q = safety::log_of(run, h, second);
        if early == late {
            safety::law_one_leader_per_term(run, peers, g, h, first, second, early);
            history::lemma_comparable(run, peers, g, h, first, early);
        } else if early < late {
            history::lemma_leader_has_all(run, peers, g, first, early, low, h, second, late);
            assert(p.take(low + 1).take(index + 1) =~= p.take(index + 1));
            assert(q.take(low + 1).take(index + 1) =~= q.take(index + 1));
        } else {
            history::lemma_leader_has_all(run, peers, h, second, late, high, g, first, early);
            assert(q.take(high + 1).take(index + 1) =~= q.take(index + 1));
            assert(p.take(high + 1).take(index + 1) =~= p.take(index + 1));
        }
        assert(p.take(index + 1) =~= q.take(index + 1));
        assert(x.take(m + 1).take(index + 1) =~= x.take(index + 1));
        assert(p.take(m + 1).take(index + 1) =~= p.take(index + 1));
        assert(y.take(n + 1).take(index + 1) =~= y.take(index + 1));
        assert(q.take(n + 1).take(index + 1) =~= q.take(index + 1));
    }
}

/// While a node runs, what it counts as committed only grows.
pub proof fn law_commit_index_goes_up(
    run: Seq<System>,
    peers: Seq<u64>,
    k: int,
    id: u64,
    input: Input,
)
    requires
        safety::is_run(run, peers),
        0 <= k < run.len() - 1,
        run[k].takes(id, input, run[k + 1]),
        !(input is Restart),
    ensures
        run[k + 1].nodes[id].state.commit_index >= run[k].nodes[id].state.commit_index,
{
    let state = run[k].nodes[id].state;
    law_committed_entries_stay(run, peers, k, k + 1, id, state.commit_index as int);
    match input {
        Input::AppendEntriesResponse { from, response } => {
            let recorded = state.recorded(from, response);
            model::lemma_highest_committable(recorded, recorded.last_index());
        },
        Input::Propose { command } => {
            let longer = state.with_entry(command);
            model::lemma_highest_committable(longer, longer.last_index());
        },
        _ => {},
    }
}

/// In a run nothing ever asks a node to replace an entry that it has committed.
pub proof fn law_committed_entries_are_spared(
    run: Seq<System>,
    peers: Seq<u64>,
    k: int,
    id: u64,
    input: Input,
)
    requires
        safety::is_run(run, peers),
        0 <= k < run.len() - 1,
        run[k].takes(id, input, run[k + 1]),
    ensures
        run[k].nodes[id].spares_committed(input),
{
    let state = run[k].nodes[id].state;
    let known = state.commit_index as int;
    law_committed_entries_stay(run, peers, k, k + 1, id, known);
    if let Input::AppendEntries { request } = input {
        let start = request.prev_log_index + 1;
        let held = model::already_held(state.log, start, request.entries);
        model::lemma_already_held(state.log, start, request.entries);
        model::lemma_already_held_stops(state.log, start, request.entries);
        if state.accepts(request) && held < request.entries.len() && start + held <= known {
            let at = start + held;
            let after = safety::log_of(run, k + 1, id);
            assert(after[at] == request.entries.skip(held)[0]);
            assert(state.log.take(known + 1)[at] == state.log[at]);
            assert(after.take(known + 1)[at] == after[at]);
            assert(state.log.take(known + 1).is_prefix_of(after));
            assert(false);
        }
    }
}

/// In a run what a node has applied is committed, and what it knows to be committed is in its log.
pub proof fn law_indices_are_ordered(run: Seq<System>, peers: Seq<u64>, k: int, id: u64)
    requires
        safety::is_run(run, peers),
        0 <= k < run.len(),
        run[k].nodes.contains_key(id),
    ensures
        run[k].nodes[id].indices_ordered(),
    decreases k,
{
    if k > 0 {
        assert(safety::is_step(run, k - 1));
        let (taker, input) = choose|taker: u64, input: Input| #[trigger]
            run[k - 1].takes(taker, input, run[k]);
        law_indices_are_ordered(run, peers, k - 1, id);
        if taker == id {
            law_committed_entries_are_spared(run, peers, k - 1, id, input);
            laws::law_committed_entries_are_kept(run[k - 1].nodes[id], input);
        }
    }
}

/// A write that was confirmed is kept. A node had an entry of some term at an index; later it knows
/// that the index is committed, and finds an entry of the same term there. Then that is the entry
/// that it had, and every node that leads in a later term than the node knew of has it as well.
pub proof fn law_confirmed_write_is_kept(
    run: Seq<System>,
    peers: Seq<u64>,
    j: int,
    k: int,
    id: u64,
    term: u64,
    index: int,
    m: int,
    leader: u64,
    later: u64,
)
    requires
        safety::is_run(run, peers),
        0 <= j <= k < run.len(),
        run[j].nodes.contains_key(id),
        0 < index < safety::log_of(run, j, id).len(),
        safety::log_of(run, j, id)[index].term == term,
        index <= run[k].nodes[id].state.commit_index,
        log::term_of(safety::log_of(run, k, id), index) == term,
        0 <= m < run.len(),
        safety::leads(run, m, leader, later),
        later > run[k].nodes[id].state.current_term,
    ensures
        index < safety::log_of(run, k, id).len(),
        index < safety::log_of(run, m, leader).len(),
        safety::log_of(run, k, id)[index] == safety::log_of(run, j, id)[index],
        safety::log_of(run, m, leader)[index] == safety::log_of(run, j, id)[index],
{
    let first = safety::log_of(run, j, id);
    let then = safety::log_of(run, k, id);
    let last = safety::log_of(run, m, leader);
    safety::lemma_votes_stay(run, peers, j, k, id);
    law_leaders_have_all_that_is_committed(run, peers, k, id, index, m, leader, later);
    safety::law_logs_match(run, peers, j, k, id, id, index);
    assert(first.take(index + 1)[index] == first[index]);
    assert(then.take(index + 1)[index] == then[index]);
    assert(then.take(index + 1).is_prefix_of(last));
    assert(last.take(index + 1)[index] == last[index]);
}

} // verus!
