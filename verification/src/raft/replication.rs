//! How the log is replicated: what a leader sends, what a follower does with it, and what the
//! leader makes of the answer.

use super::election;
use super::laws;
use super::laws::Input;
use super::log::LogCommand;
use super::log::LogEntry;
use super::message::AppendEntriesResponse;
use super::message::AppendEntriesView;
use super::model;
use super::model::ActionView;
use super::model::NodeView;
use super::persist::PersistentView;
use super::state::NodeRole;
use super::state::StateView;
use vstd::prelude::*;

verus! {

/// Where a leader tracks a node: the first place that is for it.
pub open spec fn is_place_of(progress: Seq<(u64, usize)>, id: u64, at: int) -> bool {
    &&& 0 <= at < progress.len()
    &&& progress[at].0 == id
    &&& forall|i: int| 0 <= i < at ==> (#[trigger] progress[i]).0 != id
}

/// What a leader tracks of a node is found, read and set at the first place that is for it.
pub proof fn law_progress_is_kept_by_node(progress: Seq<(u64, usize)>, id: u64, at: int, index: usize)
    requires
        is_place_of(progress, id, at),
    ensures
        model::tracks(progress, id),
        model::position_of(progress, id) == at,
        model::progress_at(progress, id) == progress[at].1,
        model::with_progress(progress, id, index as int) == progress.update(at, (id, index)),
{
    model::lemma_position(progress, id, at);
}

/// A leader tracks a node exactly if some place is for it.
pub proof fn law_tracked_nodes_have_a_place(progress: Seq<(u64, usize)>, id: u64)
    ensures
        model::tracks(progress, id) <==> exists|i: int|
            0 <= i < progress.len() && (#[trigger] progress[i]).0 == id,
        model::tracks(progress, id) ==> is_place_of(progress, id, model::position_of(progress, id)),
{
    laws::lemma_position_is_first(progress, id);
    if exists|i: int| 0 <= i < progress.len() && (#[trigger] progress[i]).0 == id {
        let i = choose|i: int| 0 <= i < progress.len() && (#[trigger] progress[i]).0 == id;
        if !model::tracks(progress, id) {
            assert(progress[i].0 != id);
        }
    }
    if model::tracks(progress, id) {
        assert(progress[model::position_of(progress, id)].0 == id);
    }
}

/// The request that brings a node up to date whose next index is `next`: it says what stands just
/// before that index, and carries all entries from there to the end of the leader's log.
pub open spec fn is_catch_up(state: StateView, next: int, request: AppendEntriesView) -> bool {
    &&& request.term == state.current_term
    &&& request.leader_id == state.id
    &&& request.leader_commit == state.commit_index
    &&& next > 0 ==> request.prev_log_index == next - 1
    &&& next == 0 ==> request.prev_log_index == 0
    &&& request.prev_log_index < state.log.len() ==> request.prev_log_term
        == state.log[request.prev_log_index as int].term
    &&& request.prev_log_index >= state.log.len() ==> request.prev_log_term == 0
    &&& next <= state.log.len() ==> {
        &&& request.entries.len() == state.log.len() - next
        &&& forall|i: int|
            0 <= i < request.entries.len() ==> #[trigger] request.entries[i] == state.log[next + i]
    }
    &&& next > state.log.len() ==> request.entries.len() == 0
}

/// What a leader makes for a node brings that node up to date.
proof fn lemma_catch_up(state: StateView, next: usize)
    ensures
        is_catch_up(state, next as int, state.append_request(next)),
{
    let request = state.append_request(next);
    if next < state.log.len() {
        assert(request.entries == state.log.skip(next as int));
    }
}

/// Whether an action brings another node of the cluster up to date.
pub open spec fn is_update(state: StateView, peers: Seq<u64>, sent: ActionView) -> bool {
    &&& sent matches ActionView::SendAppendEntries { to, request }
    &&& to != state.id
    &&& peers.contains(to)
    &&& exists|at: int| #[trigger]
        is_place_of(state.next_index, to, at) && is_catch_up(
            state,
            state.next_index[at].1 as int,
            request,
        )
}

/// What a leader sends goes to other nodes of the cluster that it tracks, to all of them, to each
/// once, and brings each up to date from the index on that the leader has as its next.
pub proof fn law_every_tracked_node_is_brought_up_to_date(state: StateView, peers: Seq<u64>)
    ensures
        ({
            let sent = state.append_requests(peers);
            &&& forall|i: int|
                0 <= i < sent.len() ==> is_update(state, peers, #[trigger] sent[i])
            &&& forall|id: u64, at: int|
                #![trigger is_place_of(state.next_index, id, at)]
                peers.contains(id) && id != state.id && is_place_of(state.next_index, id, at)
                    ==> exists|i: int|
                    0 <= i < sent.len() && (#[trigger] sent[i]) is SendAppendEntries
                        && sent[i]->SendAppendEntries_to == id
            &&& peers.no_duplicates() ==> forall|i: int, j: int|
                #![trigger sent[i], sent[j]]
                0 <= i < j < sent.len() ==> sent[i]->SendAppendEntries_to
                    != sent[j]->SendAppendEntries_to
        }),
    decreases peers.len(),
{
    if peers.len() > 0 {
        let front = peers.drop_last();
        let fewer = state.append_requests(front);
        let sent = state.append_requests(peers);
        let peer = peers.last();
        law_every_tracked_node_is_brought_up_to_date(state, front);
        law_tracked_nodes_have_a_place(state.next_index, peer);
        assert forall|i: int| 0 <= i < sent.len() implies is_update(
            state,
            peers,
            #[trigger] sent[i],
        ) by {
            if i < fewer.len() {
                assert(sent[i] == fewer[i]);
                assert(is_update(state, front, fewer[i]));
                let to = fewer[i]->SendAppendEntries_to;
                let j = choose|j: int| 0 <= j < front.len() && front[j] == to;
                assert(peers[j] == to);
                assert(is_update(state, peers, fewer[i]));
            } else {
                assert(peers[peers.len() - 1] == peer);
                let next = model::progress_at(state.next_index, peer);
                let request = state.append_request(next);
                assert(sent[i] == (ActionView::SendAppendEntries { to: peer, request }));
                let at = model::position_of(state.next_index, peer);
                lemma_catch_up(state, model::progress_at(state.next_index, peer));
                assert(is_place_of(state.next_index, peer, at));
                assert(is_catch_up(state, state.next_index[at].1 as int, request));
                assert(peer != state.id);
                assert(peers.contains(peer));
                assert(is_update(state, peers, ActionView::SendAppendEntries { to: peer, request }));
            }
        }
        assert forall|id: u64, at: int|
            #![trigger is_place_of(state.next_index, id, at)]
            peers.contains(id) && id != state.id && is_place_of(
                state.next_index,
                id,
                at,
            ) implies exists|i: int|
            0 <= i < sent.len() && (#[trigger] sent[i]) is SendAppendEntries
                && sent[i]->SendAppendEntries_to == id by {
            let j = choose|j: int| 0 <= j < peers.len() && peers[j] == id;
            if j < front.len() {
                assert(front[j] == id);
                assert(front.contains(id));
                let i = choose|i: int|
                    0 <= i < fewer.len() && (#[trigger] fewer[i]) is SendAppendEntries
                        && fewer[i]->SendAppendEntries_to == id;
                assert(sent[i] == fewer[i]);
            } else {
                model::lemma_position(state.next_index, id, at);
                assert(sent[sent.len() - 1]->SendAppendEntries_to == id);
            }
        }
        if peers.no_duplicates() {
            assert(front.no_duplicates());
            assert forall|i: int, j: int|
                #![trigger sent[i], sent[j]]
                0 <= i < j < sent.len() implies sent[i]->SendAppendEntries_to
                != sent[j]->SendAppendEntries_to by {
                assert(sent[i] == fewer[i]);
                if j < fewer.len() {
                    assert(sent[j] == fewer[j]);
                } else {
                    let to = fewer[i]->SendAppendEntries_to;
                    let at = choose|at: int| 0 <= at < front.len() && front[at] == to;
                    assert(peers[at] != peers[peers.len() - 1]);
                }
            }
        }
    }
}

/// Whether a log has, from `start` on, entries of the terms of the first entries that are sent, up
/// to the one at `i`.
pub open spec fn agrees_up_to(log: Seq<LogEntry>, start: int, entries: Seq<LogEntry>, i: int) -> bool {
    forall|j: int|
        0 <= j <= i ==> start + j < log.len() && log[start + j].term == (#[trigger] entries[j]).term
}

/// Actions that apply exactly the commands of a log after `from` and up to `to`, in order.
pub open spec fn applies_exactly(
    actions: Seq<ActionView>,
    log: Seq<LogEntry>,
    from: int,
    to: int,
) -> bool {
    &&& forall|i: int|
        0 <= i < actions.len() ==> {
            &&& (#[trigger] actions[i]) matches ActionView::ApplyEntry { index, command }
            &&& from < index <= to
            &&& !(command is Noop)
            &&& command == log[index as int].command
        }
    &&& forall|i: int, j: int|
        #![trigger actions[i], actions[j]]
        0 <= i < j < actions.len() ==> actions[i]->index < actions[j]->index
    &&& forall|index: int|
        from < index <= to && !((#[trigger] log[index]).command is Noop) ==> actions.contains(
            ActionView::ApplyEntry { index: index as usize, command: log[index].command },
        )
}

/// The commands between two indices are applied, all of them and in order.
proof fn lemma_applies_exactly(log: Seq<LogEntry>, from: int, to: int)
    requires
        0 <= from,
        to < log.len(),
        log.len() <= usize::MAX,
    ensures
        applies_exactly(model::apply_actions(log, from, to), log, from, to),
{
    let actions = model::apply_actions(log, from, to);
    if from <= to {
        laws::law_apply_actions_go_up(log, from, to);
        assert forall|i: int| 0 <= i < actions.len() implies !((
        #[trigger] actions[i])->command is Noop) by {
            model::lemma_apply_actions(log, from, to, actions[i]);
            assert(actions.contains(actions[i]));
        }
    }
}

/// A follower refuses a leader of an earlier term, and nothing changes. It refuses entries that do
/// not follow on from its own log, says how far its log goes, and keeps its log. Either way the
/// answer goes to the leader that asked.
pub proof fn law_entries_that_do_not_follow_on_are_refused(
    node: NodeView,
    request: AppendEntriesView,
)
    requires
        node.wf(),
        node.state.log.len() <= usize::MAX,
    ensures
        ({
            let before = node.state;
            let (after, actions) = node.on_append_entries(request);
            let is_stale = request.term < before.current_term;
            let follows_on = request.prev_log_index < before.log.len()
                && before.log[request.prev_log_index as int].term == request.prev_log_term;
            &&& is_stale ==> after == node && actions == seq![
                ActionView::SendAppendEntriesResponse {
                    to: request.leader_id,
                    response: AppendEntriesResponse {
                        term: before.current_term,
                        success: false,
                        match_index: None,
                    },
                },
            ]
            &&& !is_stale && !follows_on ==> {
                &&& actions == seq![
                    ActionView::SendAppendEntriesResponse {
                        to: request.leader_id,
                        response: AppendEntriesResponse {
                            term: request.term,
                            success: false,
                            match_index: Some((before.log.len() - 1) as usize),
                        },
                    },
                ]
                &&& after.state.log == before.log
                &&& after.state.commit_index == before.commit_index
                &&& after.state.last_applied == before.last_applied
            }
            &&& !is_stale ==> {
                &&& after.state.current_term == request.term
                &&& after.state.role == NodeRole::Follower
                &&& after.state.leader_id == Some(request.leader_id)
                &&& request.term == before.current_term ==> after.state.voted_for
                    == before.voted_for
                &&& request.term > before.current_term ==> after.state.voted_for is None
                &&& after.state.id == before.id
                &&& after.state.peers == before.peers
                &&& after.state.next_index.len() == 0
                &&& after.state.match_index.len() == 0
                &&& 10 <= after.election_timeout < 20
                &&& after == (NodeView {
                    state: after.state,
                    election_timeout: after.election_timeout,
                    election_timeout_duration: after.election_timeout_duration,
                    random_seed: after.random_seed,
                    ..node
                })
            }
        }),
{
    if request.term >= node.state.current_term {
        let state = node.on_append_entries(request).0.state;
        election::law_timeouts_are_spread(NodeView { state, ..node }, node);
    }
}

/// A follower takes over entries that follow on from its own log. An entry of its own stays where
/// it has the term of the one that is sent, and so have all before it; from the first one on that
/// it lacks or that differs, its log is what was sent, and nothing comes after. If it lacks
/// nothing, its log stays as it is. The answer confirms the last entry that was sent, and no more.
/// The follower commits as far as the leader has and its own log goes, and applies exactly what it
/// had not applied before.
pub proof fn law_entries_that_follow_on_are_taken_over(node: NodeView, request: AppendEntriesView)
    requires
        node.can_take(Input::AppendEntries { request }),
        request.term >= node.state.current_term,
        request.prev_log_index < node.state.log.len(),
        node.state.log[request.prev_log_index as int].term == request.prev_log_term,
    ensures
        ({
            let before = node.state;
            let (after, actions) = node.on_append_entries(request);
            let log = after.state.log;
            let start = request.prev_log_index + 1;
            let sent = request.entries;
            let last = sent.len() - 1;
            let commits = request.leader_commit > before.commit_index;
            &&& log.len() >= start + sent.len()
            &&& forall|n: int| 0 <= n < start ==> #[trigger] log[n] == before.log[n]
            &&& forall|i: int|
                0 <= i < sent.len() ==> #[trigger] log[start + i] == (if agrees_up_to(
                    before.log,
                    start,
                    sent,
                    i,
                ) {
                    before.log[start + i]
                } else {
                    sent[i]
                })
            &&& agrees_up_to(before.log, start, sent, last) ==> log == before.log
            &&& !agrees_up_to(before.log, start, sent, last) ==> log.len() == start + sent.len()
            &&& actions.len() > 0
            &&& actions.last() == (ActionView::SendAppendEntriesResponse {
                to: request.leader_id,
                response: AppendEntriesResponse {
                    term: request.term,
                    success: true,
                    match_index: Some((request.prev_log_index + sent.len()) as usize),
                },
            })
            &&& commits && request.leader_commit < log.len() ==> after.state.commit_index
                == request.leader_commit
            &&& commits && request.leader_commit >= log.len() ==> after.state.commit_index
                == log.len() - 1
            &&& !commits ==> after.state.commit_index == before.commit_index
                && after.state.last_applied == before.last_applied && actions.len() == 1
            &&& commits ==> {
                &&& after.state.last_applied == model::max(
                    before.last_applied as int,
                    after.state.commit_index as int,
                )
                &&& applies_exactly(
                    actions.drop_last(),
                    log,
                    before.last_applied as int,
                    after.state.commit_index as int,
                )
            }
        }),
{
    let before = node.state;
    let (after, actions) = node.on_append_entries(request);
    let log = after.state.log;
    let start = request.prev_log_index + 1;
    let sent = request.entries;
    let held = model::already_held(before.log, start, sent);
    let last = sent.len() - 1;
    model::lemma_already_held(before.log, start, sent);
    model::lemma_already_held_stops(before.log, start, sent);
    assert forall|i: int| 0 <= i < sent.len() implies (#[trigger] agrees_up_to(
        before.log,
        start,
        sent,
        i,
    ) <==> i < held) by {
        if i < held {
            assert forall|j: int| 0 <= j <= i implies start + j < before.log.len()
                && before.log[start + j].term == (#[trigger] sent[j]).term by {
                laws::lemma_held_terms(before.log, start, sent, j);
            }
        } else if agrees_up_to(before.log, start, sent, i) {
            assert(before.log[start + held].term == sent[held].term);
        }
    }
    assert forall|i: int| 0 <= i < sent.len() implies #[trigger] log[start + i] == (
    if agrees_up_to(before.log, start, sent, i) {
        before.log[start + i]
    } else {
        sent[i]
    }) by {
        if i >= held {
            assert(sent.skip(held)[i - held] == sent[i]);
        }
    }
    if sent.len() > 0 {
        assert(agrees_up_to(before.log, start, sent, last) <==> last < held);
    }
    let index = model::min(request.leader_commit as int, log.len() - 1);
    let applied = model::apply_actions(log, before.last_applied as int, index);
    if request.leader_commit > before.commit_index {
        lemma_applies_exactly(log, before.last_applied as int, index);
        assert(actions.drop_last() =~= applied);
    }
}

/// Only those who hold an entry are counted, and each place is counted once.
proof fn lemma_holders(progress: Seq<(u64, usize)>, index: int)
    ensures
        model::holders(progress, index) == progress.filter(
            |place: (u64, usize)| place.1 >= index,
        ).len(),
    decreases progress.len(),
{
    reveal(Seq::filter);
    if progress.len() > 0 {
        lemma_holders(progress.drop_last(), index);
    }
}

/// Whether more than half of the cluster has the entry at an index, the leader included.
pub open spec fn is_held_by_majority(state: StateView, index: int) -> bool {
    2 * (1 + state.match_index.filter(|place: (u64, usize)| place.1 >= index).len())
        > state.peers.len()
}

/// A leader commits up to the last entry of its own term that more than half of the cluster holds.
/// It applies exactly what that adds.
proof fn lemma_commits(state: StateView)
    requires
        state.wf(),
        state.log.len() <= usize::MAX,
    ensures
        ({
            let (after, actions) = state.with_commits();
            &&& after.commit_index >= state.commit_index
            &&& after.commit_index > state.commit_index ==> {
                &&& after.commit_index < state.log.len()
                &&& state.log[after.commit_index as int].term == state.current_term
                &&& is_held_by_majority(state, after.commit_index as int)
            }
            &&& forall|index: int|
                state.commit_index < index < state.log.len() && (#[trigger] state.log[index]).term
                    == state.current_term && is_held_by_majority(state, index)
                    ==> after.commit_index >= index
            &&& after.commit_index == state.commit_index ==> after == state && actions.len() == 0
            &&& after.commit_index > state.commit_index ==> {
                &&& after.last_applied == model::max(
                    state.last_applied as int,
                    after.commit_index as int,
                )
                &&& applies_exactly(
                    actions,
                    state.log,
                    state.last_applied as int,
                    after.commit_index as int,
                )
                &&& after == (StateView {
                    commit_index: after.commit_index,
                    last_applied: after.last_applied,
                    ..state
                })
            }
        }),
{
    let highest = state.highest_committable(state.last_index());
    model::lemma_highest_committable(state, state.last_index());
    lemma_holders(state.match_index, highest);
    if highest > state.commit_index {
        lemma_applies_exactly(state.log, state.last_applied as int, highest);
    }
    let after = state.with_commits().0;
    assert forall|index: int|
        state.commit_index < index < state.log.len() && (#[trigger] state.log[index]).term
            == state.current_term && is_held_by_majority(state, index) implies after.commit_index
        >= index by {
        lemma_holders(state.match_index, index);
        assert(state.committable(index));
    }
}

/// A leader takes the word of a node that it tracks: after a success of its own term, it has for
/// that node the index that was confirmed, and the next one as the next to send. Nothing else that
/// it tracks changes. It then commits up to the last entry of its own term that more than half of
/// the cluster holds, itself included, and applies exactly what that adds.
pub proof fn law_confirmed_entries_are_counted(
    node: NodeView,
    from: u64,
    response: AppendEntriesResponse,
    index: usize,
    at: int,
    next_at: int,
)
    requires
        node.wf(),
        node.state.log.len() <= usize::MAX,
        node.state.role == NodeRole::Leader,
        response.term == node.state.current_term,
        response.success,
        response.match_index == Some(index),
        index < usize::MAX,
        is_place_of(node.state.match_index, from, at),
        is_place_of(node.state.next_index, from, next_at),
    ensures
        ({
            let before = node.state;
            let (node_after, actions) = node.on_append_entries_response(from, response);
            let after = node_after.state;
            &&& after.match_index == before.match_index.update(at, (from, index))
            &&& after.next_index == before.next_index.update(next_at, (from, (index + 1) as usize))
            &&& after.commit_index >= before.commit_index
            &&& after.commit_index > before.commit_index ==> {
                &&& after.commit_index < before.log.len()
                &&& before.log[after.commit_index as int].term == before.current_term
                &&& is_held_by_majority(after, after.commit_index as int)
                &&& after.last_applied == model::max(
                    before.last_applied as int,
                    after.commit_index as int,
                )
                &&& applies_exactly(
                    actions,
                    before.log,
                    before.last_applied as int,
                    after.commit_index as int,
                )
            }
            &&& forall|n: int|
                before.commit_index < n < before.log.len() && (#[trigger] before.log[n]).term
                    == before.current_term && is_held_by_majority(after, n) ==> after.commit_index
                    >= n
            &&& after.commit_index == before.commit_index ==> after.last_applied
                == before.last_applied && actions.len() == 0
            &&& node_after == (NodeView {
                state: StateView {
                    match_index: after.match_index,
                    next_index: after.next_index,
                    commit_index: after.commit_index,
                    last_applied: after.last_applied,
                    ..before
                },
                ..node
            })
        }),
{
    law_progress_is_kept_by_node(node.state.match_index, from, at, index);
    law_progress_is_kept_by_node(node.state.next_index, from, next_at, (index + 1) as usize);
    let recorded = node.state.recorded(from, response);
    lemma_commits(recorded);
    let after = node.on_append_entries_response(from, response).0.state;
    assert(recorded.log == node.state.log);
    assert forall|n: int|
        node.state.commit_index < n < node.state.log.len() && (
        #[trigger] node.state.log[n]).term == node.state.current_term && is_held_by_majority(
            after,
            n,
        ) implies after.commit_index >= n by {
        assert(recorded.log[n].term == recorded.current_term);
        assert(is_held_by_majority(recorded, n));
    }
}

/// Distinct nodes that hold an entry are counted at least once each.
proof fn lemma_distinct_holders(progress: Seq<(u64, usize)>, index: int, nodes: Set<u64>)
    requires
        nodes.finite(),
        forall|id: u64| #[trigger]
            nodes.contains(id) ==> exists|i: int|
                0 <= i < progress.len() && (#[trigger] progress[i]).0 == id && progress[i].1
                    >= index,
    ensures
        model::holders(progress, index) >= nodes.len(),
    decreases progress.len(),
{
    if progress.len() == 0 {
        if nodes.len() > 0 {
            assert(nodes.contains(nodes.choose()));
        }
    } else {
        let front = progress.drop_last();
        let last = progress.last();
        let fewer = if last.1 >= index {
            nodes.remove(last.0)
        } else {
            nodes
        };
        assert forall|id: u64| #[trigger] fewer.contains(id) implies exists|i: int|
            0 <= i < front.len() && (#[trigger] front[i]).0 == id && front[i].1 >= index by {
            assert(nodes.contains(id));
            let i = choose|i: int|
                0 <= i < progress.len() && (#[trigger] progress[i]).0 == id && progress[i].1
                    >= index;
            assert(front[i] == progress[i]);
        }
        lemma_distinct_holders(front, index, fewer);
    }
}

/// An entry is committed as soon as more than half of the cluster is known to hold it: the leader,
/// the node that has just confirmed it or a later one, and distinct others that have done so
/// before. It does not matter whether later entries are still on their way.
pub proof fn law_majority_commits(
    node: NodeView,
    from: u64,
    response: AppendEntriesResponse,
    confirmed: usize,
    others: Set<u64>,
    n: int,
)
    requires
        node.wf(),
        node.state.log.len() <= usize::MAX,
        node.state.role == NodeRole::Leader,
        response.term == node.state.current_term,
        response.success,
        response.match_index == Some(confirmed),
        exists|i: int|
            0 <= i < node.state.match_index.len() && (#[trigger] node.state.match_index[i]).0
                == from,
        0 < n < node.state.log.len(),
        n <= confirmed,
        node.state.log[n].term == node.state.current_term,
        others.finite(),
        !others.contains(from),
        forall|id: u64| #[trigger]
            others.contains(id) ==> exists|i: int|
                0 <= i < node.state.match_index.len() && (#[trigger] node.state.match_index[i]).0
                    == id && node.state.match_index[i].1 >= n,
        2 * (2 + others.len()) > node.state.peers.len(),
    ensures
        node.on_append_entries_response(from, response).0.state.commit_index >= n,
{
    let before = node.state.match_index;
    let at = model::position_of(before, from);
    law_tracked_nodes_have_a_place(before, from);
    law_progress_is_kept_by_node(before, from, at, confirmed);
    let state = node.state.recorded(from, response);
    let after = state.match_index;
    let nodes = others.insert(from);
    assert forall|id: u64| #[trigger] nodes.contains(id) implies exists|i: int|
        0 <= i < after.len() && (#[trigger] after[i]).0 == id && after[i].1 >= n by {
        if id == from {
            assert(after[at].0 == from);
        } else {
            assert(others.contains(id));
            let i = choose|i: int|
                0 <= i < before.len() && (#[trigger] before[i]).0 == id && before[i].1 >= n;
            assert(after[i] == before[i]);
        }
    }
    lemma_distinct_holders(after, n, nodes);
    model::lemma_highest_committable(state, state.last_index());
    assert(state.committable(n));
}

/// A leader whose entries a node has refused goes back for that node by one, or to just after the
/// end of the node's log where that is earlier still, but never past the first entry. Nothing else
/// changes, and an answer of a node that it does not track changes nothing at all. Neither does a
/// success of an earlier term, nor any answer to a node that does not lead.
pub proof fn law_refusals_bring_the_leader_back(
    node: NodeView,
    from: u64,
    response: AppendEntriesResponse,
)
    requires
        node.wf(),
        response.term <= node.state.current_term,
        !response.success || response.term < node.state.current_term,
    ensures
        ({
            let before = node.state.next_index;
            let (after, actions) = node.on_append_entries_response(from, response);
            let is_tracked = exists|i: int| 0 <= i < before.len() && (#[trigger] before[i]).0 == from;
            &&& actions.len() == 0
            &&& node.state.role != NodeRole::Leader || response.success || !is_tracked ==> after
                == node
            &&& node.state.role == NodeRole::Leader && !response.success ==> forall|at: int|
                #[trigger] is_place_of(before, from, at) ==> {
                    let next = before[at].1;
                    let earlier = after.state.next_index[at].1;
                    &&& after == (NodeView {
                        state: StateView {
                            next_index: before.update(at, (from, earlier)),
                            ..node.state
                        },
                        ..node
                    })
                    &&& next <= 1 ==> earlier == next
                    &&& next > 1 ==> match response.match_index {
                        Some(index) => if index + 1 < next {
                            earlier == index + 1
                        } else {
                            earlier == next - 1
                        },
                        None => earlier == next - 1,
                    }
                }
        }),
{
    let before = node.state.next_index;
    let after = node.on_append_entries_response(from, response).0;
    law_tracked_nodes_have_a_place(before, from);
    assert forall|at: int| #[trigger] is_place_of(before, from, at) implies model::position_of(
        before,
        from,
    ) == at by {
        model::lemma_position(before, from, at);
    }
    if !model::tracks(before, from) {
        assert(after.state.next_index == before || node.state.role != NodeRole::Leader
            || response.success);
    }
}

/// A success that names no index adds nothing that is tracked, and so does one of a node that the
/// leader does not track.
pub proof fn law_unknown_nodes_are_not_counted(
    node: NodeView,
    from: u64,
    response: AppendEntriesResponse,
)
    requires
        node.state.role == NodeRole::Leader,
        response.term <= node.state.current_term,
        response.success,
        response.match_index is None || !(exists|i: int|
            0 <= i < node.state.match_index.len() && (#[trigger] node.state.match_index[i]).0
                == from),
    ensures
        node.on_append_entries_response(from, response).0.state.match_index
            == node.state.match_index,
        node.on_append_entries_response(from, response).0.state.log == node.state.log,
{
    law_tracked_nodes_have_a_place(node.state.match_index, from);
}

/// A leader that takes a command puts it at the end of its log, in its own term, and sends it at
/// once to every other node. It commits nothing on its own account, unless it is alone: then the
/// command is committed and applied at once.
pub proof fn law_proposed_command_is_appended_and_sent(node: NodeView, command: LogCommand)
    requires
        node.wf(),
        node.state.role == NodeRole::Leader,
        node.state.log.len() < usize::MAX,
        node.indices_ordered(),
    ensures
        ({
            let before = node.state;
            let (node_after, actions) = node.on_propose(command);
            let after = node_after.state;
            let longer = StateView {
                log: before.log.push(LogEntry { term: before.current_term, command }),
                ..before
            };
            let sent = longer.append_requests(before.peers);
            let index = before.log.len() as int;
            &&& after.log == longer.log
            &&& actions.len() >= sent.len()
            &&& actions.take(sent.len() as int) == sent
            &&& before.peers.len() != 1 ==> {
                &&& after == longer
                &&& actions == sent
            }
            &&& before.peers.len() == 1 ==> {
                &&& after.commit_index == index
                &&& after.last_applied == index
                &&& applies_exactly(
                    actions.skip(sent.len() as int),
                    longer.log,
                    before.last_applied as int,
                    index,
                )
                &&& after == (StateView {
                    commit_index: after.commit_index,
                    last_applied: after.last_applied,
                    ..longer
                })
            }
            &&& node_after == (NodeView { state: after, ..node })
        }),
{
    let state = node.state.with_entry(command);
    let sent = state.append_requests(state.peers);
    let actions = node.on_propose(command).1;
    assert(actions.take(sent.len() as int) =~= sent);
    if state.peers.len() == 1 {
        let applied = state.with_commits().1;
        assert(actions.skip(sent.len() as int) =~= applied);
        lemma_commits(state);
        let index = node.state.log.len() as int;
        assert(state.log[index].term == state.current_term);
        assert(is_held_by_majority(state, index));
    }
}

/// A node that starts from what was saved has the term, the vote and the log that were saved, and
/// is fresh otherwise.
pub proof fn law_saved_state_is_recovered(id: u64, peers: Seq<u64>, saved: PersistentView)
    ensures
        ({
            let node = NodeView::recovered(id, peers, saved);
            let fresh = NodeView::fresh(id, peers);
            &&& node.state.current_term == saved.current_term
            &&& node.state.voted_for == saved.voted_for
            &&& node.state.log == saved.log
            &&& node == (NodeView {
                state: StateView {
                    current_term: saved.current_term,
                    voted_for: saved.voted_for,
                    log: saved.log,
                    ..fresh.state
                },
                ..fresh
            })
        }),
{
}

/// A node that restarts has the term, the vote and the log that it had, and starts over otherwise:
/// it follows, tracks nobody, and knows of nothing committed.
pub proof fn law_restarted_node_remembers(node: NodeView)
    ensures
        ({
            let (after, actions) = node.step(Input::Restart);
            let saved = node.persistent();
            &&& actions.len() == 0
            &&& saved.current_term == node.state.current_term
            &&& saved.voted_for == node.state.voted_for
            &&& saved.log == node.state.log
            &&& after.state.current_term == node.state.current_term
            &&& after.state.voted_for == node.state.voted_for
            &&& after.state.log == node.state.log
            &&& after.state.id == node.state.id
            &&& after.state.peers == node.state.peers
            &&& after.state.role == NodeRole::Follower
            &&& after.state.leader_id is None
            &&& after.state.commit_index == 0
            &&& after.state.last_applied == 0
            &&& after.state.next_index.len() == 0
            &&& after.state.match_index.len() == 0
            &&& 10 <= after.election_timeout < 20
        }),
{
    election::law_fresh_node_follows(node.state.id, node.state.id, node.state.peers);
}

} // verus!
