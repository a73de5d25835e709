//! How leaders are elected: who gets a vote, who wins, and when an election starts.

use super::log::LogEntry;
use super::message::RequestVoteRequest;
use super::message::RequestVoteResponse;
use super::model;
use super::model::ActionView;
use super::model::NodeView;
use super::state;
use super::state::NodeRole;
use super::state::StateView;
use vstd::prelude::*;

verus! {

/// A node votes for a candidate exactly if the candidate is not in an earlier term, the node has
/// voted for nobody else in the term, and the log of the candidate ends in a later term than the
/// node's own, or in the same term at the same index or a later one. The answer says so, and the
/// vote is recorded. A node that votes waits anew; one that refuses goes on waiting as it did.
pub proof fn law_vote_is_granted_to_an_up_to_date_candidate(
    node: NodeView,
    request: RequestVoteRequest,
)
    requires
        node.wf(),
    ensures
        ({
            let before = node.state;
            let (after, actions) = node.on_request_vote(request);
            let last = before.log.len() - 1;
            let is_free = request.term > before.current_term || (request.term
                == before.current_term && (before.voted_for is None || before.voted_for == Some(
                request.candidate_id,
            )));
            let is_current = request.last_log_term > before.log[last].term || (
            request.last_log_term == before.log[last].term && request.last_log_index >= last);
            let granted = is_free && is_current;
            &&& actions == seq![
                ActionView::SendRequestVoteResponse {
                    to: request.candidate_id,
                    response: RequestVoteResponse {
                        term: after.state.current_term,
                        vote_granted: granted,
                    },
                },
            ]
            &&& granted ==> after.state.voted_for == Some(request.candidate_id)
            &&& !granted && request.term > before.current_term ==> after.state.voted_for is None
            &&& !granted && request.term <= before.current_term ==> after.state.voted_for
                == before.voted_for
            &&& after.state.current_term == model::max(
                before.current_term as int,
                request.term as int,
            )
            &&& after.state.log == before.log
            &&& after.state.commit_index == before.commit_index
            &&& after.state.last_applied == before.last_applied
            &&& after.state.id == before.id
            &&& after.state.peers == before.peers
            &&& request.term > before.current_term ==> after.state.role == NodeRole::Follower
            &&& request.term <= before.current_term ==> {
                &&& after.state.role == before.role
                &&& after.state.next_index == before.next_index
                &&& after.state.match_index == before.match_index
            }
            &&& granted ==> 10 <= after.election_timeout < 20
            &&& !granted ==> after.election_timeout == node.election_timeout
            &&& after.state.leader_id == before.leader_id
            &&& request.term > before.current_term ==> after.state.next_index.len() == 0
                && after.state.match_index.len() == 0
            &&& after == (NodeView {
                state: after.state,
                election_timeout: after.election_timeout,
                election_timeout_duration: after.election_timeout_duration,
                random_seed: after.random_seed,
                ..node
            })
        }),
{
    assert(node.on_request_vote(request).1.len() == 1);
}

/// The larger of two numbers is at least each of them, and one of them.
pub proof fn law_larger_number(a: int, b: int)
    ensures
        model::max(a, b) >= a,
        model::max(a, b) >= b,
        model::max(a, b) == a || model::max(a, b) == b,
        model::min(a, b) <= a,
        model::min(a, b) <= b,
        model::min(a, b) == a || model::min(a, b) == b,
{
}

/// What a node with the given log asks for when it runs in `term`.
pub open spec fn candidacy(id: u64, log: Seq<LogEntry>, term: u64) -> RequestVoteRequest {
    RequestVoteRequest {
        term,
        candidate_id: id,
        last_log_index: (log.len() - 1) as usize,
        last_log_term: log[log.len() - 1].term,
    }
}

/// Whether a node grants a vote.
pub open spec fn votes_for(node: NodeView, request: RequestVoteRequest) -> bool {
    node.on_request_vote(request).0.state.voted_for == Some(request.candidate_id)
        && node.on_request_vote(request).1 == seq![
        ActionView::SendRequestVoteResponse {
            to: request.candidate_id,
            response: RequestVoteResponse { term: request.term, vote_granted: true },
        },
    ]
}

/// Of any two nodes at least one can get the vote of the other in a new term, whatever their logs
/// hold: the survivors of a leader can always elect one of them.
pub proof fn law_one_of_two_survivors_can_win(a: NodeView, b: NodeView, term: u64)
    requires
        a.wf(),
        b.wf(),
        a.state.log.len() <= usize::MAX,
        b.state.log.len() <= usize::MAX,
        term > a.state.current_term,
        term > b.state.current_term,
    ensures
        votes_for(a, candidacy(b.state.id, b.state.log, term)) || votes_for(
            b,
            candidacy(a.state.id, a.state.log, term),
        ),
{
    law_vote_is_granted_to_an_up_to_date_candidate(
        a,
        candidacy(b.state.id, b.state.log, term),
    );
    law_vote_is_granted_to_an_up_to_date_candidate(
        b,
        candidacy(a.state.id, a.state.log, term),
    );
}

/// A node votes for a candidate with a log like its own, and for one whose log goes on from there.
pub proof fn law_longer_log_gets_the_vote(
    node: NodeView,
    candidate: u64,
    more: Seq<LogEntry>,
    term: u64,
)
    requires
        node.wf(),
        node.state.log.len() + more.len() <= usize::MAX,
        term > node.state.current_term,
        forall|i: int|
            0 <= i < more.len() ==> (#[trigger] more[i]).term >= node.state.log[node.state.log.len()
                - 1].term,
    ensures
        votes_for(node, candidacy(candidate, node.state.log + more, term)),
{
    law_vote_is_granted_to_an_up_to_date_candidate(
        node,
        candidacy(candidate, node.state.log + more, term),
    );
    if more.len() > 0 {
        assert((node.state.log + more)[node.state.log.len() + more.len() - 1] == more[more.len()
            - 1]);
    }
}

/// The other nodes of a cluster are all nodes but one's own.
pub proof fn law_others_are_all_but_oneself(peers: Seq<u64>, own_id: u64)
    ensures
        forall|id: u64| #[trigger]
            state::others(peers, own_id).contains(id) <==> peers.contains(id) && id != own_id,
        peers.no_duplicates() ==> state::others(peers, own_id).no_duplicates(),
    decreases peers.len(),
{
    if peers.len() > 0 {
        let front = peers.drop_last();
        let fewer = state::others(front, own_id);
        let all = state::others(peers, own_id);
        law_others_are_all_but_oneself(front, own_id);
        assert forall|id: u64| #[trigger] all.contains(id) <==> peers.contains(id) && id
            != own_id by {
            if all.contains(id) {
                let i = choose|i: int| 0 <= i < all.len() && all[i] == id;
                if i < fewer.len() {
                    assert(fewer[i] == id);
                    assert(fewer.contains(id));
                    let j = choose|j: int| 0 <= j < front.len() && front[j] == id;
                    assert(peers[j] == id);
                } else {
                    assert(peers[peers.len() - 1] == id);
                }
            }
            if peers.contains(id) && id != own_id {
                let j = choose|j: int| 0 <= j < peers.len() && peers[j] == id;
                if j < front.len() {
                    assert(front[j] == id);
                    assert(fewer.contains(id));
                    let i = choose|i: int| 0 <= i < fewer.len() && fewer[i] == id;
                    assert(all[i] == id);
                } else {
                    assert(all[all.len() - 1] == id);
                }
            }
        }
        if peers.no_duplicates() {
            assert(front.no_duplicates());
            assert forall|i: int, j: int|
                0 <= i < all.len() && 0 <= j < all.len() && i != j implies all[i] != all[j] by {
                if i < fewer.len() && j < fewer.len() {
                    assert(fewer[i] != fewer[j]);
                } else {
                    let other = if i < fewer.len() {
                        i
                    } else {
                        j
                    };
                    assert(fewer.contains(fewer[other]));
                    let at = choose|at: int| 0 <= at < front.len() && front[at] == fewer[other];
                    assert(peers[at] != peers[peers.len() - 1]);
                }
            }
        }
    }
}

/// Whether a leader tracks exactly the other nodes of the cluster, each with the given index.
pub open spec fn tracks_all_others(
    progress: Seq<(u64, usize)>,
    peers: Seq<u64>,
    own_id: u64,
    index: int,
) -> bool {
    &&& forall|i: int|
        0 <= i < progress.len() ==> {
            &&& (#[trigger] progress[i]).1 == index
            &&& progress[i].0 != own_id
            &&& peers.contains(progress[i].0)
        }
    &&& forall|id: u64| #[trigger]
        peers.contains(id) && id != own_id ==> exists|i: int|
            0 <= i < progress.len() && (#[trigger] progress[i]).0 == id
}

/// A new leader knows itself as the leader of its term. It starts with every other node at the end
/// of its own log, and counts on none of them to have any entry. Its log, its term and its vote
/// stay.
pub proof fn law_new_leader_tracks_every_other_node(state: StateView)
    requires
        state.log.len() <= usize::MAX,
    ensures
        ({
            let after = state.as_leader();
            &&& after.role == NodeRole::Leader
            &&& after.leader_id == Some(state.id)
            &&& tracks_all_others(after.next_index, state.peers, state.id, state.log.len() as int)
            &&& tracks_all_others(after.match_index, state.peers, state.id, 0)
            &&& after == (StateView {
                role: after.role,
                leader_id: after.leader_id,
                next_index: after.next_index,
                match_index: after.match_index,
                ..state
            })
        }),
{
    let others = state::others(state.peers, state.id);
    law_others_are_all_but_oneself(state.peers, state.id);
    let next = state.as_leader().next_index;
    let held = state.as_leader().match_index;
    assert forall|i: int| 0 <= i < others.len() implies #[trigger] next[i] == (
        others[i],
        state.log.len() as usize,
    ) && held[i] == (others[i], 0usize) && others.contains(others[i]) by {}
    assert forall|i: int| 0 <= i < held.len() implies (#[trigger] held[i]).1 == 0 && held[i].0
        != state.id && state.peers.contains(held[i].0) by {
        assert(next[i].0 == others[i]);
    }
    assert forall|id: u64| #[trigger]
        state.peers.contains(id) && id != state.id implies (exists|i: int|
        0 <= i < next.len() && (#[trigger] next[i]).0 == id) && (exists|i: int|
        0 <= i < held.len() && (#[trigger] held[i]).0 == id) by {
        assert(others.contains(id));
        let i = choose|i: int| 0 <= i < others.len() && others[i] == id;
        assert(next[i].0 == id);
        assert(held[i].0 == id);
    }
}

/// A follower has the higher of the two terms, and a new vote if that is a new term. It tracks
/// nobody. The rest stays.
pub proof fn law_follower_adopts_a_higher_term(state: StateView, term: u64)
    ensures
        ({
            let after = state.as_follower(term);
            &&& after.role == NodeRole::Follower
            &&& after.current_term == model::max(state.current_term as int, term as int)
            &&& term > state.current_term ==> after.voted_for is None
            &&& term <= state.current_term ==> after.voted_for == state.voted_for
            &&& after.next_index.len() == 0
            &&& after.match_index.len() == 0
            &&& after == (StateView {
                role: after.role,
                current_term: after.current_term,
                voted_for: after.voted_for,
                next_index: after.next_index,
                match_index: after.match_index,
                ..state
            })
        }),
{
}

/// A candidate is in the next term, has voted for itself and knows no leader. The rest stays.
pub proof fn law_candidate_votes_for_itself(state: StateView)
    requires
        state.current_term < u64::MAX,
    ensures
        ({
            let after = state.as_candidate();
            &&& after.role == NodeRole::Candidate
            &&& after.current_term == state.current_term + 1
            &&& after.voted_for == Some(state.id)
            &&& after.leader_id is None
            &&& after == (StateView {
                role: after.role,
                current_term: after.current_term,
                voted_for: after.voted_for,
                leader_id: after.leader_id,
                ..state
            })
        }),
{
}

/// A majority is more than half of the cluster, and no more than that takes.
pub proof fn law_majority_is_more_than_half(state: StateView)
    ensures
        2 * state.majority() > state.peers.len(),
        2 * (state.majority() - 1) <= state.peers.len(),
{
}

/// A candidate counts a vote of its term once for each voter. It leads as soon as more than half
/// of the cluster has voted for it, and then sends to all others; until then it goes on waiting,
/// and a refusal changes nothing. Whoever is no candidate of the term takes no votes.
pub proof fn law_votes_are_counted(node: NodeView, from: u64, response: RequestVoteResponse)
    requires
        response.term <= node.state.current_term,
    ensures
        ({
            let (after, actions) = node.on_request_vote_response(from, response);
            let counts = node.state.role == NodeRole::Candidate && response.term
                == node.state.current_term;
            let votes = if response.vote_granted {
                node.votes_received.insert(from)
            } else {
                node.votes_received
            };
            let wins = 2 * votes.len() > node.state.peers.len();
            &&& !counts ==> after == node && actions.len() == 0
            &&& counts ==> after.votes_received == votes && after == (NodeView {
                state: after.state,
                votes_received: after.votes_received,
                heartbeat_timeout: after.heartbeat_timeout,
                ..node
            })
            &&& counts && wins ==> {
                &&& after.state == node.state.as_leader()
                &&& after.state.role == NodeRole::Leader
                &&& after.heartbeat_timeout == 0
                &&& actions == after.state.append_requests(node.state.peers)
            }
            &&& counts && !wins ==> {
                &&& after.state == node.state
                &&& after.heartbeat_timeout == node.heartbeat_timeout
                &&& actions.len() == 0
            }
        }),
{
}

/// A vote request goes to every other node of the cluster, to each once, with the term of the
/// candidate and the end of its log.
pub proof fn law_votes_are_asked_of_every_other_node(state: StateView)
    requires
        state.wf(),
        state.log.len() <= usize::MAX,
    ensures
        ({
            let asked = state.vote_requests();
            let request = candidacy(state.id, state.log, state.current_term);
            &&& forall|i: int|
                0 <= i < asked.len() ==> {
                    &&& (#[trigger] asked[i]) matches ActionView::SendRequestVote { to, request: sent }
                    &&& sent == request
                    &&& to != state.id
                    &&& state.peers.contains(to)
                }
            &&& forall|id: u64| #[trigger]
                state.peers.contains(id) && id != state.id ==> asked.contains(
                    ActionView::SendRequestVote { to: id, request },
                )
            &&& state.peers.no_duplicates() ==> asked.no_duplicates()
        }),
{
    let asked = state.vote_requests();
    let request = candidacy(state.id, state.log, state.current_term);
    let others = state::others(state.peers, state.id);
    law_others_are_all_but_oneself(state.peers, state.id);
    assert forall|i: int| 0 <= i < others.len() implies #[trigger] asked[i]
        == (ActionView::SendRequestVote { to: others[i], request }) && others.contains(
        others[i],
    ) by {}
    assert forall|id: u64| #[trigger]
        state.peers.contains(id) && id != state.id implies asked.contains(
        ActionView::SendRequestVote { to: id, request },
    ) by {
        assert(others.contains(id));
        let i = choose|i: int| 0 <= i < others.len() && others[i] == id;
        assert(asked[i] == (ActionView::SendRequestVote { to: id, request }));
    }
    if state.peers.no_duplicates() {
        assert forall|i: int, j: int|
            0 <= i < asked.len() && 0 <= j < asked.len() && i != j implies asked[i]
            != asked[j] by {
            assert(others[i] != others[j]);
        }
    }
}

/// A tick brings a node that does not lead closer to an election, and the last one starts it: the
/// node runs in the next term with its own vote alone, and asks all others for theirs. The only
/// node of a cluster wins at once. A tick brings a leader closer to its next heartbeat, and the
/// last one sends to all others; the leader then waits for three more.
pub proof fn law_ticks_count_down(node: NodeView)
    requires
        node.wf(),
        node.state.current_term < u64::MAX,
    ensures
        ({
            let (after, actions) = node.on_tick();
            let is_leader = node.state.role == NodeRole::Leader;
            let runs = node.state.as_candidate();
            &&& !is_leader && node.election_timeout > 1 ==> {
                &&& actions.len() == 0
                &&& after.election_timeout == node.election_timeout - 1
                &&& after == (NodeView { election_timeout: after.election_timeout, ..node })
            }
            &&& !is_leader && node.election_timeout <= 1 ==> {
                &&& after.votes_received == set![node.state.id]
                &&& 10 <= after.election_timeout < 20
                &&& after.heartbeat_timeout == node.heartbeat_timeout
                &&& node.state.peers.len() == 1 ==> after.state == runs.as_leader()
                    && actions.len() == 0
                &&& node.state.peers.len() != 1 ==> after.state == runs && actions
                    == runs.vote_requests()
            }
            &&& is_leader && node.heartbeat_timeout > 1 ==> {
                &&& actions.len() == 0
                &&& after.heartbeat_timeout == node.heartbeat_timeout - 1
                &&& after == (NodeView { heartbeat_timeout: after.heartbeat_timeout, ..node })
            }
            &&& is_leader && node.heartbeat_timeout <= 1 ==> {
                &&& actions == node.state.append_requests(node.state.peers)
                &&& after.heartbeat_timeout == 3
                &&& after == (NodeView { heartbeat_timeout: after.heartbeat_timeout, ..node })
            }
        }),
{
}

/// A tick can pass on a leader, before an election is due, and as long as there is a next term.
pub proof fn law_only_the_last_term_stops_the_clock(node: NodeView)
    ensures
        node.has_term_left() <==> node.state.role == NodeRole::Leader || node.election_timeout > 1
            || node.state.current_term < u64::MAX,
        node.election_is_due() <==> node.state.role != NodeRole::Leader && node.election_timeout
            <= 1,
{
}

/// The remainder of a wrapped product plus a summand, both odd, has the other parity.
proof fn lemma_parity_flips(seed: u64)
    ensures
        model::next_seed(seed) % 2 != seed % 2,
{
    reveal(model::next_seed);
    let multiplier: int = 6364136223846793005;
    let increment: int = 1442695040888963407;
    let range: int = 0x1_0000_0000_0000_0000;
    let sum: int = seed as int * multiplier + increment;
    let half: int = range / 2;
    let quotient: int = sum / range;
    let rest: int = sum % range;
    vstd::arithmetic::div_mod::lemma_fundamental_div_mod(sum, range);
    assert(range * quotient == 2 * (half * quotient)) by (nonlinear_arith)
        requires
            range == 2 * half,
    ;
    let before: int = seed as int / 2;
    let parity: int = seed as int % 2;
    assert(seed as int * multiplier == 2 * (before * multiplier) + parity * multiplier)
        by (nonlinear_arith)
        requires
            seed as int == 2 * before + parity,
    ;
    assert(parity == 0 || parity == 1);
}

/// The timeout that a node draws depends on its seed alone, and is spread over ten to nineteen
/// ticks. A node never draws the same timeout twice in a row, and nodes whose seeds differ in
/// parity draw different timeouts: that is what ends split votes.
pub proof fn law_timeouts_are_spread(a: NodeView, b: NodeView)
    ensures
        ({
            let x = a.with_new_timeout();
            let y = b.with_new_timeout();
            &&& 10 <= x.election_timeout < 20
            &&& x.election_timeout == x.election_timeout_duration
            &&& a.random_seed == b.random_seed ==> x.election_timeout == y.election_timeout
                && x.random_seed == y.random_seed
            &&& a.random_seed % 2 != b.random_seed % 2 ==> x.election_timeout
                != y.election_timeout
            &&& x.with_new_timeout().election_timeout != x.election_timeout
            &&& x.election_timeout == 10 + x.random_seed % 10
            &&& x.random_seed == (a.random_seed as nat * 6364136223846793005
                + 1442695040888963407) % 0x1_0000_0000_0000_0000
            &&& x == (NodeView {
                election_timeout: x.election_timeout,
                election_timeout_duration: x.election_timeout_duration,
                random_seed: x.random_seed,
                ..a
            })
        }),
{
    let x = a.with_new_timeout();
    let y = b.with_new_timeout();
    let z = x.with_new_timeout();
    lemma_parity_flips(a.random_seed);
    lemma_parity_flips(b.random_seed);
    lemma_parity_flips(x.random_seed);
    lemma_last_digit(x.random_seed);
    lemma_last_digit(y.random_seed);
    lemma_last_digit(z.random_seed);
    assert(x.random_seed == (a.random_seed as nat * 6364136223846793005 + 1442695040888963407)
        % 0x1_0000_0000_0000_0000) by {
        lemma_next_seed(a.random_seed);
    }
}

/// The seed that follows a seed.
proof fn lemma_next_seed(seed: u64)
    ensures
        model::next_seed(seed) == (seed as nat * 6364136223846793005 + 1442695040888963407)
            % 0x1_0000_0000_0000_0000,
{
    reveal(model::next_seed);
    vstd::arithmetic::div_mod::lemma_mod_bound(
        seed as int * 6364136223846793005 + 1442695040888963407,
        0x1_0000_0000_0000_0000,
    );
}

/// The last digit of a number tells its parity.
proof fn lemma_last_digit(seed: u64)
    ensures
        (seed % 10) % 2 == seed % 2,
{
}

/// A node that has never run is a follower of term 0. It has voted for nobody, has only the
/// sentinel in its log, and knows of nothing committed. Nodes of the same cluster whose IDs differ
/// in parity start with different timeouts.
pub proof fn law_fresh_node_follows(id: u64, other: u64, peers: Seq<u64>)
    ensures
        ({
            let node = NodeView::fresh(id, peers);
            let state = node.state;
            &&& state.id == id && state.peers == peers
            &&& state.current_term == 0 && state.voted_for is None
            &&& state.role == NodeRole::Follower && state.leader_id is None
            &&& state.log.len() == 1 && state.log[0].term == 0 && state.log[0].command is Noop
            &&& state.commit_index == 0 && state.last_applied == 0
            &&& state.next_index.len() == 0 && state.match_index.len() == 0
            &&& node.heartbeat_timeout == 3
            &&& node.votes_received == Set::<u64>::empty()
            &&& 10 <= node.election_timeout < 20
            &&& id % 2 != other % 2 ==> node.election_timeout != NodeView::fresh(
                other,
                peers,
            ).election_timeout
        }),
{
    let a = NodeView { random_seed: id, ..NodeView::fresh(id, peers) };
    let b = NodeView { random_seed: other, ..NodeView::fresh(other, peers) };
    law_timeouts_are_spread(a, b);
}

} // verus!
