//! What a cluster node does for its clients and its peers.

use crate::cluster;
use crate::cluster::{ClusterView, PayloadView, PeerView, Progress, WriteView};
use crate::durable::DurableView;
use crate::network::protocol::{Command, CommandView, Response, ResponseView};
use crate::network::server;
use crate::raft::log::{LogCommand, LogEntry};
use crate::raft::model::ActionView;
use crate::raft::model::NodeView;
use crate::raft::persist::PersistentState;
use crate::raft::state::NodeRole;
use crate::sharding::ring;
use crate::sharding::router::RouterView;
use crate::storage::engine;
use crate::storage::wal;
use crate::storage::wal::{Operation, WalView};
use crate::text;
use crate::transport;
use crate::transport::NetworkView;
use vstd::prelude::*;
use vstd::string::*;

verus! {

/// A node that only forgets which write it last accepted.
pub open spec fn is_untouched(before: ClusterView, after: ClusterView) -> bool {
    after == (ClusterView { pending_commit_index: None, ..before })
}

/// A read changes nothing. It is answered with the value that the table has under the key, and
/// with nothing if the key was deleted or never written, whoever leads.
pub proof fn law_reads_give_what_the_table_has(node: ClusterView, key: String)
    requires
        node.router matches Some(router) ==> router.owner(key@) == Some(node.shard_id),
    ensures
        ({
            let (after, reply) = node.on_command(Command::Get { key });
            &&& is_untouched(node, after)
            &&& node.table.contains_key(key@) ==> match node.table[key@] {
                Some(value) => reply == ResponseView::BulkString(value),
                None => reply == ResponseView::Null,
            }
            &&& !node.table.contains_key(key@) ==> reply == ResponseView::Null
        }),
{
}

/// A leader that owns the key accepts every put, and answers `OK`, whatever the table holds. The
/// command is the last entry of the log, in the leader's term, and the client is to wait for its
/// index. The table does not change before that.
pub proof fn law_accepted_put_is_answered_with_ok(node: ClusterView, key: String, value: String)
    requires
        node.raft.state.role == NodeRole::Leader,
        node.router matches Some(router) ==> router.owner(key@) == Some(node.shard_id),
        node.raft.wf(),
        node.raft.state.log.len() < usize::MAX,
    ensures
        ({
            let (after, reply) = node.on_command(Command::Put { key, value });
            let (raft, actions) = node.raft.on_propose(LogCommand::Put { key, value });
            let log = node.raft.state.log;
            &&& reply == ResponseView::SimpleString("OK"@)
            &&& raft.state.log == log.push(
                LogEntry { term: node.raft.state.current_term, command: LogCommand::Put { key, value } },
            )
            &&& after == (ClusterView {
                raft,
                outbound: node.outbound + cluster::messages_of(actions),
                writes: node.writes + cluster::writes_of(actions),
                pending_commit_index: Some(log.len() as usize),
                ..node
            })
        }),
{
}

/// A leader that owns the key accepts every deletion, and answers 1, whatever the table holds. The
/// command is the last entry of the log, in the leader's term, and the client is to wait for its
/// index. The table does not change before that.
pub proof fn law_accepted_deletion_is_answered_with_one(node: ClusterView, key: String)
    requires
        node.raft.state.role == NodeRole::Leader,
        node.router matches Some(router) ==> router.owner(key@) == Some(node.shard_id),
        node.raft.wf(),
        node.raft.state.log.len() < usize::MAX,
    ensures
        ({
            let (after, reply) = node.on_command(Command::Del { key });
            let (raft, actions) = node.raft.on_propose(LogCommand::Delete { key });
            let log = node.raft.state.log;
            &&& reply == ResponseView::Integer(1)
            &&& raft.state.log == log.push(
                LogEntry { term: node.raft.state.current_term, command: LogCommand::Delete { key } },
            )
            &&& after == (ClusterView {
                raft,
                outbound: node.outbound + cluster::messages_of(actions),
                writes: node.writes + cluster::writes_of(actions),
                pending_commit_index: Some(log.len() as usize),
                ..node
            })
        }),
{
}

/// A node that does not lead refuses the writes of its shard, and nothing changes.
pub proof fn law_only_leaders_take_writes(node: ClusterView, key: String, value: String)
    requires
        node.raft.state.role != NodeRole::Leader,
        node.router matches Some(router) ==> router.owner(key@) == Some(node.shard_id),
    ensures
        ({
            let (put, put_reply) = node.on_command(Command::Put { key, value });
            let (del, del_reply) = node.on_command(Command::Del { key });
            &&& put_reply == ResponseView::Error("NOTLEADER - this node is not the leader"@)
            &&& del_reply == ResponseView::Error("NOTLEADER - this node is not the leader"@)
            &&& is_untouched(node, put)
            &&& is_untouched(node, del)
        }),
{
}

/// A key is foreign to a node exactly if the node has a router and the router does not give the key
/// to the node's own shard. There is no order among shards in this: what one shard owns is foreign
/// to all others.
pub proof fn law_keys_are_foreign_to_all_shards_but_one(
    node: ClusterView,
    router: RouterView,
    key: Seq<char>,
    owner: Option<u64>,
    other: u64,
)
    requires
        node.router == Some(router),
        router.owner(key) == owner,
    ensures
        node.is_foreign(key) <==> owner != Some(node.shard_id),
        owner == Some(node.shard_id) && other != node.shard_id ==> (ClusterView {
            shard_id: other,
            ..node
        }).is_foreign(key),
        !(ClusterView { router: None, ..node }).is_foreign(key),
{
}

/// A read of a key that the ring gives to another shard, or to none, is answered with an error that
/// names the shard of the key, whether this node leads or not, and nothing changes.
pub proof fn law_reads_of_other_shards_are_redirected(node: ClusterView, router: RouterView, key: String)
    requires
        node.router == Some(router),
    ensures
        ({
            let (after, reply) = node.on_command(Command::Get { key });
            let owner = ring::owner(router.points, ring::position_of(key@));
            let shard = match owner {
                Some(shard) => shard as nat,
                None => 0,
            };
            &&& owner != Some(node.shard_id) ==> is_untouched(node, after) && reply
                == ResponseView::Error("MOVED - key belongs to shard "@ + text::decimal(shard))
        }),
{
}

/// A put of a key that the ring gives to another shard, or to none, is answered with an error that
/// names the shard of the key, whether this node leads or not, and nothing changes. So a write is
/// accepted only for a key that the ring gives to this node's own shard.
pub proof fn law_puts_of_other_shards_are_redirected(node: ClusterView, router: RouterView, key: String, value: String)
    requires
        node.router == Some(router),
    ensures
        ({
            let (after, reply) = node.on_command(Command::Put { key, value });
            let owner = ring::owner(router.points, ring::position_of(key@));
            let shard = match owner {
                Some(shard) => shard as nat,
                None => 0,
            };
            &&& owner != Some(node.shard_id) ==> is_untouched(node, after) && reply
                == ResponseView::Error("MOVED - key belongs to shard "@ + text::decimal(shard))
            &&& after.pending_commit_index is Some ==> owner == Some(node.shard_id)
        }),
{
}

/// A deletion of a key that the ring gives to another shard, or to none, is answered with an error that
/// names the shard of the key, whether this node leads or not, and nothing changes. So a write is
/// accepted only for a key that the ring gives to this node's own shard.
pub proof fn law_deletions_of_other_shards_are_redirected(node: ClusterView, router: RouterView, key: String)
    requires
        node.router == Some(router),
    ensures
        ({
            let (after, reply) = node.on_command(Command::Del { key });
            let owner = ring::owner(router.points, ring::position_of(key@));
            let shard = match owner {
                Some(shard) => shard as nat,
                None => 0,
            };
            &&& owner != Some(node.shard_id) ==> is_untouched(node, after) && reply
                == ResponseView::Error("MOVED - key belongs to shard "@ + text::decimal(shard))
            &&& after.pending_commit_index is Some ==> owner == Some(node.shard_id)
        }),
{
}

/// A ping is answered, an unknown command is named in the error, and nothing changes.
pub proof fn law_other_commands_change_nothing(node: ClusterView, name: String)
    ensures
        ({
            let (ping, ping_reply) = node.on_command(Command::Ping);
            let (unknown, unknown_reply) = node.on_command(Command::Unknown { name });
            &&& ping_reply == ResponseView::SimpleString("PONG"@)
            &&& unknown_reply == ResponseView::Error("unknown command '"@ + name@ + "'"@)
            &&& is_untouched(node, ping)
            &&& is_untouched(node, unknown)
        }),
{
}

/// Each action is taken up as what it is: what is to be sent is queued for its receiver as it is,
/// and a command that is to be applied is queued as its mutation, under its index.
pub proof fn law_actions_are_taken_up_as_they_are(action: ActionView)
    ensures
        ({
            let messages = cluster::messages_of(seq![action]);
            let writes = cluster::writes_of(seq![action]);
            match action {
                ActionView::SendRequestVote { to, request } => {
                    &&& messages == seq![PeerView { to, payload: PayloadView::RequestVote(request) }]
                    &&& writes.len() == 0
                },
                ActionView::SendRequestVoteResponse { to, response } => {
                    &&& messages == seq![
                        PeerView { to, payload: PayloadView::RequestVoteResponse(response) },
                    ]
                    &&& writes.len() == 0
                },
                ActionView::SendAppendEntries { to, request } => {
                    &&& messages == seq![
                        PeerView { to, payload: PayloadView::AppendEntries(request) },
                    ]
                    &&& writes.len() == 0
                },
                ActionView::SendAppendEntriesResponse { to, response } => {
                    &&& messages == seq![
                        PeerView { to, payload: PayloadView::AppendEntriesResponse(response) },
                    ]
                    &&& writes.len() == 0
                },
                ActionView::ApplyEntry { index, command } => {
                    &&& messages.len() == 0
                    &&& match command {
                        LogCommand::Put { key, value } => writes == seq![
                            WriteView {
                                index,
                                entry: WalView {
                                    operation: Operation::Put,
                                    key: key@,
                                    value: Some(value@),
                                },
                            },
                        ],
                        LogCommand::Delete { key } => writes == seq![
                            WriteView {
                                index,
                                entry: WalView {
                                    operation: Operation::Delete,
                                    key: key@,
                                    value: None,
                                },
                            },
                        ],
                        LogCommand::Noop => writes.len() == 0,
                    }
                },
            }
        }),
{
    let one = seq![action];
    assert(one.drop_last() =~= Seq::empty());
    assert(one.last() == action);
    reveal_with_fuel(cluster::messages_of, 2);
    reveal_with_fuel(cluster::writes_of, 2);
    assert(cluster::messages_of(Seq::empty()) =~= Seq::empty());
    assert(cluster::writes_of(Seq::empty()) =~= Seq::empty());
    if let Some(message) = cluster::message_of(action) {
        assert(cluster::messages_of(one) =~= seq![message]);
    }
    if let Some(write) = cluster::write_of(action) {
        assert(cluster::writes_of(one) =~= seq![write]);
    }
}

/// Actions are taken up one after the other, and nothing else changes by it.
pub proof fn law_actions_are_taken_up_in_order(
    node: ClusterView,
    front: Seq<ActionView>,
    back: Seq<ActionView>,
)
    ensures
        cluster::messages_of(Seq::empty()).len() == 0,
        cluster::writes_of(Seq::empty()).len() == 0,
        cluster::messages_of(front + back) == cluster::messages_of(front) + cluster::messages_of(
            back,
        ),
        cluster::writes_of(front + back) == cluster::writes_of(front) + cluster::writes_of(back),
        node.processed(front) == (ClusterView {
            outbound: node.outbound + cluster::messages_of(front),
            writes: node.writes + cluster::writes_of(front),
            ..node
        }),
    decreases back.len(),
{
    if back.len() == 0 {
        assert(front + back =~= front);
        assert(cluster::messages_of(front) + cluster::messages_of(back) =~= cluster::messages_of(
            front,
        ));
        assert(cluster::writes_of(front) + cluster::writes_of(back) =~= cluster::writes_of(front));
    } else {
        law_actions_are_taken_up_in_order(node, front, back.drop_last());
        assert((front + back).drop_last() =~= front + back.drop_last());
        assert(cluster::messages_of(front + back) =~= cluster::messages_of(front)
            + cluster::messages_of(back));
        assert(cluster::writes_of(front + back) =~= cluster::writes_of(front)
            + cluster::writes_of(back));
    }
}

/// A step of the Raft node is a step of the cluster node: it has the Raft node after the step and
/// takes up what that asks for, and nothing else changes.
pub proof fn law_steps_are_taken_up(node: ClusterView, raft: NodeView, actions: Seq<ActionView>)
    ensures
        node.stepped((raft, actions)) == (ClusterView {
            raft,
            outbound: node.outbound + cluster::messages_of(actions),
            writes: node.writes + cluster::writes_of(actions),
            ..node
        }),
{
}

/// Every message of another node reaches the Raft node as what it is, with its sender where the
/// answer counts.
pub proof fn law_messages_reach_the_raft_node(node: ClusterView, message: NetworkView)
    ensures
        ({
            let raft = node.raft;
            let step = match message {
                NetworkView::RequestVote { from: _, request } => raft.on_request_vote(request),
                NetworkView::RequestVoteResponse { from, response } =>
                    raft.on_request_vote_response(from, response),
                NetworkView::AppendEntries { from: _, request } => raft.on_append_entries(request),
                NetworkView::AppendEntriesResponse { from, response } =>
                    raft.on_append_entries_response(from, response),
            };
            node.on_message(message) == (ClusterView {
                raft: step.0,
                outbound: node.outbound + cluster::messages_of(step.1),
                writes: node.writes + cluster::writes_of(step.1),
                ..node
            })
        }),
{
}

/// Only one kind of message can be out of range: a success for a leader of the term that confirms
/// the largest index there is.
pub proof fn law_only_the_largest_index_is_out_of_range(node: ClusterView, message: NetworkView)
    requires
        !node.is_in_range(message),
    ensures
        message matches NetworkView::AppendEntriesResponse { from, response } && response.success
            && response.match_index == Some(usize::MAX) && response.term
            == node.raft.state.current_term && node.raft.state.role == NodeRole::Leader,
{
}

/// What is queued keeps its meaning on the way: the receiver gets the message that was queued for
/// it, under the name of the sender, at the address of the receiver. Only what has no address is
/// dropped, and the order stays.
pub proof fn law_messages_are_signed_and_addressed(
    from: u64,
    addresses: Map<u64, Seq<char>>,
    front: Seq<PeerView>,
    message: PeerView,
)
    ensures
        transport::addressed(from, addresses, Seq::empty()).len() == 0,
        addresses.contains_key(message.to) ==> transport::addressed(
            from,
            addresses,
            front.push(message),
        ) == transport::addressed(from, addresses, front).push(
            (
                addresses[message.to],
                match message.payload {
                    PayloadView::RequestVote(request) => NetworkView::RequestVote { from, request },
                    PayloadView::RequestVoteResponse(response) =>
                        NetworkView::RequestVoteResponse { from, response },
                    PayloadView::AppendEntries(request) => NetworkView::AppendEntries {
                        from,
                        request,
                    },
                    PayloadView::AppendEntriesResponse(response) =>
                        NetworkView::AppendEntriesResponse { from, response },
                },
            ),
        ),
        !addresses.contains_key(message.to) ==> transport::addressed(
            from,
            addresses,
            front.push(message),
        ) == transport::addressed(from, addresses, front),
{
    assert(front.push(message).drop_last() =~= front);
}

/// A write is done exactly if its index is committed, the entry there is of the term in which it
/// was appended, and its mutation is neither yet to be logged nor could not be logged.
pub proof fn law_write_is_done_when_it_is_committed_and_logged(
    node: ClusterView,
    index: usize,
    term: u64,
)
    ensures
        ({
            let state = node.raft.state;
            let is_committed = state.commit_index >= index;
            let is_own = if index < state.log.len() {
                state.log[index as int].term == term
            } else {
                term == 0
            };
            let waits = exists|i: int|
                0 <= i < node.writes.len() && #[trigger] node.writes[i].index == index;
            let failed = exists|i: int|
                0 <= i < node.unlogged.len() && #[trigger] node.unlogged[i] == index;
            let progress = node.progress(index, term);
            &&& progress == Progress::Done <==> is_committed && is_own && !waits && !failed
            &&& progress == Progress::Replaced <==> is_committed && !is_own
            &&& progress == Progress::Unlogged <==> is_committed && is_own && failed
            &&& progress == Progress::Waiting <==> !is_committed || (is_own && !failed && waits)
        }),
{
    let failed = exists|i: int|
        0 <= i < node.unlogged.len() && #[trigger] node.unlogged[i] == index;
    assert(node.unlogged.contains(index) <==> failed);
}

/// As long as the state is not saved, a write is not done; once it is, saving changes nothing about
/// how far the write has come.
pub proof fn law_unsaved_writes_wait(node: DurableView, index: usize, term: u64)
    ensures
        !node.is_saved ==> node.progress(index, term) == Progress::Waiting,
        node.is_saved ==> node.progress(index, term) == node.cluster.progress(index, term),
{
}

/// The replies to writes that are not done are errors, which tell why.
pub proof fn law_writes_that_fail_are_errors()
    ensures
        server::timed_out() == ResponseView::Error(
            "TIMEOUT - entry appended but not committed by a majority"@,
        ),
        server::replaced() == ResponseView::Error(
            "REPLACED - another leader committed a different entry"@,
        ),
        server::not_logged() == ResponseView::Error(
            "NOTLOGGED - entry committed but not written to the log"@,
        ),
{
}

/// When the oldest mutation that waits is logged, its key has its value, or is marked as deleted,
/// and every other key keeps what it has; if it is not logged, the table stays, and the node
/// remembers the index. The others wait on in their order.
pub proof fn law_logged_mutations_take_effect(node: ClusterView)
    requires
        node.writes.len() > 0,
    ensures
        ({
            let write = node.writes[0];
            let done = node.after_write(true);
            let failed = node.after_write(false);
            &&& match write.entry.operation {
                Operation::Put => {
                    &&& write.entry.value matches Some(value) ==> done.table == node.table.insert(
                        write.entry.key,
                        Some(value),
                    )
                    &&& write.entry.value is None ==> done.table == node.table.insert(
                        write.entry.key,
                        Some(Seq::empty()),
                    )
                },
                Operation::Delete => done.table == node.table.insert(write.entry.key, None),
            }
            &&& failed.table == node.table
            &&& failed.unlogged == node.unlogged.push(write.index)
            &&& done.unlogged == node.unlogged
            &&& done.writes == node.writes.skip(1)
            &&& failed.writes == node.writes.skip(1)
            &&& done == (ClusterView { table: done.table, writes: done.writes, ..node })
            &&& failed == (ClusterView {
                unlogged: failed.unlogged,
                writes: failed.writes,
                ..node
            })
        }),
{
    assert(node.writes.drop_first() =~= node.writes.skip(1));
}

/// A node that settles has logged its mutations one by one.
pub proof fn law_settling_logs_one_by_one(node: ClusterView)
    ensures
        node.writes.len() == 0 ==> node.settled() == node,
        node.writes.len() > 0 ==> node.settled() == node.after_write(true).settled(),
        node.settled().writes.len() == 0,
        node.settled().raft == node.raft,
{
    if node.writes.len() == 0 {
        assert(node.settled() =~= node);
    } else {
        cluster::law_writes_take_effect_in_order(node);
    }
}

/// A node starts its Raft node from what was saved, and afresh where nothing was. What was saved is
/// of use only if it has at least the sentinel of the log. Unless told otherwise a node is of shard
/// 1, and a shard has 64 virtual nodes.
pub proof fn law_node_starts_from_what_was_saved(id: u64, peers: Seq<u64>, saved: PersistentState)
    ensures
        cluster::started_raft(id, peers, None) == NodeView::fresh(id, peers),
        cluster::started_raft(id, peers, Some(saved)) == NodeView::recovered(id, peers, saved@),
        cluster::is_truncated(Some(saved)) <==> saved.log@.len() == 0,
        !cluster::is_truncated(None),
        cluster::DEFAULT_SHARD == 1,
        cluster::VIRTUAL_NODES == 64,
{
}

/// A reply and a command mean what they hold.
pub proof fn law_values_mean_what_they_hold(text: String, value: String, number: i64)
    ensures
        Response::SimpleString(text)@ == ResponseView::SimpleString(text@),
        Response::BulkString(text)@ == ResponseView::BulkString(text@),
        Response::Error(text)@ == ResponseView::Error(text@),
        Response::Integer(number)@ == ResponseView::Integer(number),
        Response::Null@ == ResponseView::Null,
        (Command::Get { key: text })@ == (CommandView::Get { key: text@ }),
        (Command::Put { key: text, value })@ == (CommandView::Put { key: text@, value: value@ }),
        (Command::Del { key: text })@ == (CommandView::Del { key: text@ }),
        Command::Ping@ == CommandView::Ping,
        (Command::Unknown { name: text })@ == (CommandView::Unknown { name: text@ }),
{
}

/// A node starts with the table that its write-ahead log gives, entry by entry, and with nothing
/// that waits.
pub proof fn law_node_starts_from_its_log(
    raft: NodeView,
    contents: Seq<char>,
    router: Option<RouterView>,
    shard_id: u64,
)
    ensures
        ({
            let node = ClusterView::started(raft, contents, router, shard_id);
            &&& node.raft == raft
            &&& node.table == engine::applied_in_order(
                wal::replayed(contents),
                Map::<Seq<char>, Option<Seq<char>>>::empty(),
            )
            &&& node.writes.len() == 0
            &&& node.outbound.len() == 0
            &&& node.unlogged.len() == 0
            &&& node.pending_commit_index is None
            &&& node.router == router
            &&& node.shard_id == shard_id
        }),
{
}

} // verus!
