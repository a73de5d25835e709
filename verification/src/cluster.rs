//! A cluster node: consensus, storage and routing put together.

use crate::network::protocol::{Command, Response, ResponseView};
use crate::raft::commit;
use crate::raft::laws;
use crate::raft::laws::Input;
use crate::raft::log;
use crate::raft::log::{LogCommand, LogEntry};
use crate::raft::message::{
    AppendEntriesRequest, AppendEntriesResponse, AppendEntriesView, RequestVoteRequest,
    RequestVoteResponse,
};
use crate::raft::model;
use crate::raft::model::{ActionView, NodeView};
use crate::raft::node;
use crate::raft::node::{Action, RaftNode};
use crate::raft::persist::{PersistentState, RecoveryError};
use crate::raft::safety;
use crate::raft::safety::System;
use crate::raft::state::NodeRole;
use crate::sharding::router::{Router, RouterView, ShardConfig};
use crate::storage::engine;
use crate::storage::engine::StorageEngine;
use crate::storage::memtable::Table;
use crate::storage::wal;
use crate::storage::wal::{Operation, WalEntry, WalView};
use crate::text;
use crate::text::push_decimal;
use vstd::prelude::*;
use vstd::string::*;

verus! {

/// The shard of a node that is not told otherwise.
pub const DEFAULT_SHARD: u64 = 1;

/// How many virtual nodes a sharded cluster gives each shard.
pub const VIRTUAL_NODES: u32 = 64;

/// A message for another node.
#[derive(Debug)]
pub struct PeerMessage {
    pub to: u64,
    pub payload: MessagePayload,
}

/// What a message for another node carries.
#[derive(Debug)]
pub enum MessagePayload {
    RequestVote(RequestVoteRequest),
    RequestVoteResponse(RequestVoteResponse),
    AppendEntries(AppendEntriesRequest),
    AppendEntriesResponse(AppendEntriesResponse),
}

/// What a [`PeerMessage`] says.
#[verifier::ext_equal]
pub struct PeerView {
    pub to: u64,
    pub payload: PayloadView,
}

/// What a [`MessagePayload`] says.
#[verifier::ext_equal]
pub enum PayloadView {
    RequestVote(RequestVoteRequest),
    RequestVoteResponse(RequestVoteResponse),
    AppendEntries(AppendEntriesView),
    AppendEntriesResponse(AppendEntriesResponse),
}

impl View for MessagePayload {
    type V = PayloadView;

    open spec fn view(&self) -> PayloadView {
        match *self {
            MessagePayload::RequestVote(request) => PayloadView::RequestVote(request),
            MessagePayload::RequestVoteResponse(response) => PayloadView::RequestVoteResponse(
                response,
            ),
            MessagePayload::AppendEntries(request) => PayloadView::AppendEntries(request@),
            MessagePayload::AppendEntriesResponse(response) =>
                PayloadView::AppendEntriesResponse(response),
        }
    }
}

impl View for PeerMessage {
    type V = PeerView;

    open spec fn view(&self) -> PeerView {
        PeerView { to: self.to, payload: self.payload@ }
    }
}

/// What some messages say.
pub open spec fn message_views(messages: Seq<PeerMessage>) -> Seq<PeerView> {
    messages.map_values(|message: PeerMessage| message@)
}

/// The message that an action sends: none, if it applies an entry.
pub open spec fn message_of(action: ActionView) -> Option<PeerView> {
    match action {
        ActionView::SendRequestVote { to, request } => Some(
            PeerView { to, payload: PayloadView::RequestVote(request) },
        ),
        ActionView::SendRequestVoteResponse { to, response } => Some(
            PeerView { to, payload: PayloadView::RequestVoteResponse(response) },
        ),
        ActionView::SendAppendEntries { to, request } => Some(
            PeerView { to, payload: PayloadView::AppendEntries(request) },
        ),
        ActionView::SendAppendEntriesResponse { to, response } => Some(
            PeerView { to, payload: PayloadView::AppendEntriesResponse(response) },
        ),
        ActionView::ApplyEntry { .. } => None,
    }
}

/// The messages that some actions send, in order.
pub open spec fn messages_of(actions: Seq<ActionView>) -> Seq<PeerView>
    decreases actions.len(),
{
    if actions.len() == 0 {
        Seq::empty()
    } else {
        let front = messages_of(actions.drop_last());
        match message_of(actions.last()) {
            Some(message) => front.push(message),
            None => front,
        }
    }
}

/// What a command does to the storage engine: nothing, if it is bookkeeping only.
pub open spec fn mutation_of(command: LogCommand) -> Option<WalView> {
    match command {
        LogCommand::Put { key, value } => Some(
            WalView { operation: Operation::Put, key: key@, value: Some(value@) },
        ),
        LogCommand::Delete { key } => Some(
            WalView { operation: Operation::Delete, key: key@, value: None },
        ),
        LogCommand::Noop => None,
    }
}

/// A committed mutation that is yet to be logged.
#[derive(Debug)]
pub struct PendingWrite {
    /// The index of the command in the Raft log.
    pub index: usize,
    pub entry: WalEntry,
}

/// What a [`PendingWrite`] says.
#[verifier::ext_equal]
pub struct WriteView {
    pub index: usize,
    pub entry: WalView,
}

impl View for PendingWrite {
    type V = WriteView;

    open spec fn view(&self) -> WriteView {
        WriteView { index: self.index, entry: self.entry@ }
    }
}

/// What some pending writes say.
pub open spec fn write_views(writes: Seq<PendingWrite>) -> Seq<WriteView> {
    writes.map_values(|write: PendingWrite| write@)
}

/// The mutations of some pending writes.
pub open spec fn mutations(writes: Seq<WriteView>) -> Seq<WalView> {
    writes.map_values(|write: WriteView| write.entry)
}

/// The write that an action asks for: none, if it sends a message.
pub open spec fn write_of(action: ActionView) -> Option<WriteView> {
    match action {
        ActionView::ApplyEntry { index, command } => match mutation_of(command) {
            Some(entry) => Some(WriteView { index, entry }),
            None => None,
        },
        _ => None,
    }
}

/// The writes that some actions ask for, in order.
pub open spec fn writes_of(actions: Seq<ActionView>) -> Seq<WriteView>
    decreases actions.len(),
{
    if actions.len() == 0 {
        Seq::empty()
    } else {
        let front = writes_of(actions.drop_last());
        match write_of(actions.last()) {
            Some(write) => front.push(write),
            None => front,
        }
    }
}

/// How far a write has come that a leader has accepted.
#[derive(Debug, Clone, Copy, PartialEq, Eq, Structural)]
pub enum Progress {
    /// It is not committed yet, or not logged yet.
    Waiting,
    /// It is committed, and the write-ahead log has recorded it.
    Done,
    /// Another entry was committed in its place.
    Replaced,
    /// It is committed, but the write-ahead log could not record it.
    Unlogged,
}

/// What a [`ClusterNode`] holds.
#[verifier::ext_equal]
pub struct ClusterView {
    pub raft: NodeView,
    /// What clients read.
    pub table: Table,
    /// Committed mutations that are yet to be logged, oldest first.
    pub writes: Seq<WriteView>,
    /// The indices of the mutations that the write-ahead log could not record.
    pub unlogged: Seq<usize>,
    pub outbound: Seq<PeerView>,
    pub router: Option<RouterView>,
    pub shard_id: u64,
    pub pending_commit_index: Option<usize>,
}

impl ClusterView {
    /// A node as it starts.
    pub open spec fn started(
        raft: NodeView,
        contents: Seq<char>,
        router: Option<RouterView>,
        shard_id: u64,
    ) -> ClusterView {
        ClusterView {
            raft,
            table: engine::applied_in_order(wal::replayed(contents), Map::empty()),
            writes: Seq::empty(),
            unlogged: Seq::empty(),
            outbound: Seq::empty(),
            router,
            shard_id,
            pending_commit_index: None,
        }
    }

    /// The node after it took note of what its Raft node asks for.
    pub open spec fn processed(self, actions: Seq<ActionView>) -> ClusterView {
        ClusterView {
            outbound: self.outbound + messages_of(actions),
            writes: self.writes + writes_of(actions),
            ..self
        }
    }

    /// The node after its Raft node made a step.
    pub open spec fn stepped(self, step: (NodeView, Seq<ActionView>)) -> ClusterView {
        ClusterView { raft: step.0, ..self }.processed(step.1)
    }

    /// The node after the log was to record the oldest mutation that it has not recorded yet.
    /// What was not recorded does not take effect, and the node remembers that.
    pub open spec fn after_write(self, logged: bool) -> ClusterView {
        ClusterView {
            table: if logged {
                self.writes[0].entry.applied_to(self.table)
            } else {
                self.table
            },
            writes: self.writes.drop_first(),
            unlogged: if logged {
                self.unlogged
            } else {
                self.unlogged.push(self.writes[0].index)
            },
            ..self
        }
    }

    /// Whether the mutation of the command at an index is yet to be logged.
    pub open spec fn awaits_log(self, index: usize) -> bool {
        exists|i: int| 0 <= i < self.writes.len() && #[trigger] self.writes[i].index == index
    }

    /// How far the write has come that a leader has appended at an index in a term.
    pub open spec fn progress(self, index: usize, term: u64) -> Progress {
        if self.raft.state.commit_index < index {
            Progress::Waiting
        } else if log::term_of(self.raft.state.log, index as int) != term {
            Progress::Replaced
        } else if self.unlogged.contains(index) {
            Progress::Unlogged
        } else if self.awaits_log(index) {
            Progress::Waiting
        } else {
            Progress::Done
        }
    }

    /// The node once all its mutations are logged.
    pub open spec fn settled(self) -> ClusterView {
        ClusterView {
            table: engine::applied_in_order(mutations(self.writes), self.table),
            writes: Seq::empty(),
            ..self
        }
    }

    /// Whether a key belongs to another shard than this node's.
    pub open spec fn is_foreign(self, key: Seq<char>) -> bool {
        self.router matches Some(router) && router.owner(key) != Some(self.shard_id)
    }

    /// What a client is told that asks for a key of another shard.
    pub open spec fn moved(self, key: Seq<char>) -> ResponseView {
        let target = match self.router {
            Some(router) => match router.owner(key) {
                Some(shard_id) => shard_id,
                None => 0,
            },
            None => 0,
        };
        ResponseView::Error("MOVED - key belongs to shard "@ + text::decimal(target as nat))
    }

    /// What a client is told that reads a key of this shard.
    pub open spec fn found(self, key: Seq<char>) -> ResponseView {
        match engine::read(self.table, key) {
            Some(value) => ResponseView::BulkString(value),
            None => ResponseView::Null,
        }
    }

    /// The node after a client asked for a mutation of a key, and what the client is told.
    pub open spec fn on_write(self, key: Seq<char>, command: LogCommand, done: ResponseView) -> (
        ClusterView,
        ResponseView,
    ) {
        if self.is_foreign(key) {
            (self, self.moved(key))
        } else if self.raft.state.role != NodeRole::Leader {
            (self, ResponseView::Error("NOTLEADER - this node is not the leader"@))
        } else {
            let node = self.stepped(self.raft.on_propose(command));
            (
                ClusterView {
                    pending_commit_index: Some(node.raft.state.last_index() as usize),
                    ..node
                },
                done,
            )
        }
    }

    /// The node after a command of a client, and what the client is told.
    pub open spec fn on_command(self, command: Command) -> (ClusterView, ResponseView) {
        let node = ClusterView { pending_commit_index: None, ..self };
        match command {
            Command::Get { key } => (
                node,
                if self.is_foreign(key@) {
                    self.moved(key@)
                } else {
                    self.found(key@)
                },
            ),
            Command::Put { key, value } => node.on_write(
                key@,
                LogCommand::Put { key, value },
                ResponseView::SimpleString("OK"@),
            ),
            Command::Del { key } => node.on_write(
                key@,
                LogCommand::Delete { key },
                ResponseView::Integer(1),
            ),
            Command::Ping => (node, ResponseView::SimpleString("PONG"@)),
            Command::Unknown { name } => (
                node,
                ResponseView::Error("unknown command '"@ + name@ + "'"@),
            ),
        }
    }
}

/// A cluster node.
///
/// Reads are answered from the storage engine. Writes go through Raft; once the cluster has
/// committed them they wait, oldest first, until the write-ahead log has recorded them, and then
/// take effect. Messages for other nodes wait until they are taken.
pub struct ClusterNode {
    pub raft: RaftNode,
    pub storage: StorageEngine,
    /// Committed mutations that are yet to be logged, oldest first.
    pub pending_writes: Vec<PendingWrite>,
    /// The indices of the mutations that the write-ahead log could not record.
    pub unlogged: Vec<usize>,
    /// Messages that are yet to be sent.
    pub outbound_messages: Vec<PeerMessage>,
    pub router: Option<Router>,
    pub shard_id: u64,
    /// The log index of the write that the last command appended, if it did. The client is not to
    /// be told of success before [`ClusterNode::progress`] says that the write is done.
    pub pending_commit_index: Option<usize>,
}

impl View for ClusterNode {
    type V = ClusterView;

    open spec fn view(&self) -> ClusterView {
        ClusterView {
            raft: self.raft@,
            table: self.storage@,
            writes: write_views(self.pending_writes@),
            unlogged: self.unlogged@,
            outbound: message_views(self.outbound_messages@),
            router: match self.router {
                Some(router) => Some(router@),
                None => None,
            },
            shard_id: self.shard_id,
            pending_commit_index: self.pending_commit_index,
        }
    }
}

/// The node that a Raft node starts as: afresh, or from what an earlier run saved.
pub open spec fn started_raft(
    node_id: u64,
    peers: Seq<u64>,
    saved: Option<PersistentState>,
) -> NodeView {
    match saved {
        Some(saved) => NodeView::recovered(node_id, peers, saved@),
        None => NodeView::fresh(node_id, peers),
    }
}

/// Whether a saved state lacks even the sentinel of the log.
pub open spec fn is_truncated(saved: Option<PersistentState>) -> bool {
    saved matches Some(saved) && saved@.log.len() == 0
}

impl ClusterNode {
    /// The parts are in order.
    pub open spec fn wf(&self) -> bool {
        &&& self.raft@.wf()
        &&& self.storage.wf()
        &&& self.router matches Some(router) ==> router.wf()
    }

    /// Whether the storage engine has room for the mutation that is to be logged next.
    pub open spec fn has_room_for_next(&self) -> bool {
        self@.writes.len() > 0 ==> self.storage.written() + self@.writes[0].entry.weight()
            <= usize::MAX
    }

    /// A node of a cluster that is not sharded. It starts from what its Raft node saved and from
    /// the contents of its write-ahead log.
    pub fn new(
        node_id: u64,
        peers: Vec<u64>,
        saved: Option<PersistentState>,
        contents: &str,
    ) -> (node: Result<Self, RecoveryError>)
        ensures
            match node {
                Ok(node) => {
                    &&& !is_truncated(saved)
                    &&& node.wf()
                    &&& node@ == ClusterView::started(
                        started_raft(node_id, peers@, saved),
                        contents@,
                        None,
                        DEFAULT_SHARD,
                    )
                    &&& node.storage.written() == wal::weight_of(wal::replayed(contents@))
                },
                Err(error) => is_truncated(saved) && error == RecoveryError::MissingSentinel,
            },
    {
        let storage = StorageEngine::new(contents);
        match RaftNode::with_persistence(node_id, peers, saved) {
            Ok(raft) => {
                let node = ClusterNode {
                    raft,
                    storage,
                    pending_writes: Vec::new(),
                    unlogged: Vec::new(),
                    outbound_messages: Vec::new(),
                    router: None,
                    shard_id: DEFAULT_SHARD,
                    pending_commit_index: None,
                };
                assert(node@.writes =~= Seq::empty());
                assert(node@.outbound =~= Seq::empty());
                Ok(node)
            },
            Err(error) => Err(error),
        }
    }

    /// A node of one of several shards.
    pub fn with_sharding(
        node_id: u64,
        peers: Vec<u64>,
        saved: Option<PersistentState>,
        contents: &str,
        shard_id: u64,
        shard_configs: Vec<ShardConfig>,
    ) -> (node: Result<Self, RecoveryError>)
        ensures
            match node {
                Ok(node) => {
                    &&& !is_truncated(saved)
                    &&& node.wf()
                    &&& node@ == ClusterView::started(
                        started_raft(node_id, peers@, saved),
                        contents@,
                        Some(RouterView::fresh(shard_configs@, VIRTUAL_NODES)),
                        shard_id,
                    )
                    &&& node.storage.written() == wal::weight_of(wal::replayed(contents@))
                },
                Err(error) => is_truncated(saved) && error == RecoveryError::MissingSentinel,
            },
    {
        match ClusterNode::new(node_id, peers, saved, contents) {
            Ok(node) => {
                let mut node = node;
                node.router = Some(Router::new(shard_configs, VIRTUAL_NODES));
                node.shard_id = shard_id;
                Ok(node)
            },
            Err(error) => Err(error),
        }
    }

    /// The answer to a client that asks for a key of another shard: `None` for a key of this one.
    fn redirect(&self, key: &str) -> (response: Option<Response>)
        requires
            self.wf(),
        ensures
            match response {
                Some(response) => self@.is_foreign(key@) && response@ == self@.moved(key@),
                None => !self@.is_foreign(key@),
            },
    {
        let router: &Router = match &self.router {
            Some(router) => router,
            None => {
                return None;
            },
        };
        if router.key_belongs_to_shard(key, self.shard_id) {
            return None;
        }
        let target: u64 = match router.get_shard_id(key) {
            Some(shard_id) => shard_id,
            None => 0,
        };
        let mut message: String = String::new();
        message.append("MOVED - key belongs to shard ");
        push_decimal(&mut message, target);
        assert(message@ =~= "MOVED - key belongs to shard "@ + text::decimal(target as nat));
        Some(Response::Error(message))
    }

    /// Carry out a mutation that a client asked for.
    fn write(&mut self, command: LogCommand, done: Response) -> (response: Response)
        requires
            old(self).wf(),
        ensures
            final(self).wf(),
            final(self).storage == old(self).storage,
            forall|key: Seq<char>|
                !#[trigger] old(self)@.is_foreign(key) ==> final(self)@ == old(self)@.on_write(
                    key,
                    command,
                    done@,
                ).0 && response@ == old(self)@.on_write(key, command, done@).1,
    {
        if self.raft.state.role != NodeRole::Leader {
            return Response::Error("NOTLEADER - this node is not the leader".to_owned());
        }
        match self.raft.propose(command) {
            Some(actions) => {
                self.process_actions(actions);
                self.pending_commit_index = Some(self.raft.state.log.last_index());
                done
            },
            None => Response::Error("failed to propose".to_owned()),
        }
    }

    /// Carry out a command of a client, and say what the client is to be told. After a write that
    /// was accepted, `pending_commit_index` says which index must be committed first.
    pub fn handle_client_command(&mut self, command: Command) -> (response: Response)
        requires
            old(self).wf(),
        ensures
            final(self).wf(),
            final(self).storage == old(self).storage,
            final(self)@ == old(self)@.on_command(command).0,
            response@ == old(self)@.on_command(command).1,
    {
        self.pending_commit_index = None;
        match command {
            Command::Get { key } => {
                if let Some(response) = self.redirect(key.as_str()) {
                    return response;
                }
                match self.storage.get(key.as_str()) {
                    Some(value) => Response::BulkString(value),
                    None => Response::Null,
                }
            },
            Command::Put { key, value } => {
                if let Some(response) = self.redirect(key.as_str()) {
                    return response;
                }
                self.write(LogCommand::Put { key, value }, Response::SimpleString("OK".to_owned()))
            },
            Command::Del { key } => {
                if let Some(response) = self.redirect(key.as_str()) {
                    return response;
                }
                self.write(LogCommand::Delete { key }, Response::Integer(1))
            },
            Command::Ping => Response::SimpleString("PONG".to_owned()),
            Command::Unknown { name } => {
                let mut message: String = String::new();
                message.append("unknown command '");
                message.append(name.as_str());
                message.append("'");
                assert(message@ =~= "unknown command '"@ + name@ + "'"@);
                Response::Error(message)
            },
        }
    }

    /// Let one tick pass. The node must have a term left, as [`RaftNode::can_tick`] tells.
    pub fn tick(&mut self)
        requires
            old(self).wf(),
            old(self).raft@.has_term_left(),
        ensures
            final(self).wf(),
            final(self).storage == old(self).storage,
            final(self)@ == old(self)@.stepped(old(self)@.raft.on_tick()),
    {
        let actions: Vec<Action> = self.raft.tick();
        self.process_actions(actions);
    }

    /// Take note of what the Raft node asks for: messages wait to be sent, and committed commands
    /// wait to be logged.
    pub fn process_actions(&mut self, actions: Vec<Action>)
        requires
            old(self).wf(),
        ensures
            final(self).wf(),
            final(self).raft == old(self).raft,
            final(self).storage == old(self).storage,
            final(self)@ == old(self)@.processed(node::action_views(actions@)),
    {
        let ghost all = node::action_views(actions@);
        let ghost asked = actions@;
        proof {
            assert(all.take(0) =~= Seq::empty());
            assert(self@ =~= self@.processed(all.take(0)));
        }
        for action in taken: actions
            invariant
                taken.seq() == asked,
                all == node::action_views(asked),
                self.raft == old(self).raft,
                self.storage == old(self).storage,
                self.router == old(self).router,
                old(self).wf(),
                self@ == old(self)@.processed(all.take(taken.index() as int)),
        {
            let ghost before = self@;
            let ghost i = taken.index() as int;
            proof {
                assert(action == asked[i]);
                assert(all[i] == action@);
                assert(all.take(i + 1).drop_last() =~= all.take(i));
                assert(all.take(i + 1).last() == action@);
            }
            match action {
                Action::ApplyEntry { index, command } => match command {
                    LogCommand::Put { key, value } => {
                        let entry: WalEntry = StorageEngine::put_entry(key, value);
                        self.queue_write(PendingWrite { index, entry });
                    },
                    LogCommand::Delete { key } => {
                        let entry: WalEntry = StorageEngine::delete_entry(key);
                        self.queue_write(PendingWrite { index, entry });
                    },
                    LogCommand::Noop => {},
                },
                Action::SendRequestVote { to, request } => {
                    self.queue(PeerMessage { to, payload: MessagePayload::RequestVote(request) });
                },
                Action::SendRequestVoteResponse { to, response } => {
                    self.queue(
                        PeerMessage { to, payload: MessagePayload::RequestVoteResponse(response) },
                    );
                },
                Action::SendAppendEntries { to, request } => {
                    self.queue(PeerMessage { to, payload: MessagePayload::AppendEntries(request) });
                },
                Action::SendAppendEntriesResponse { to, response } => {
                    self.queue(
                        PeerMessage { to, payload: MessagePayload::AppendEntriesResponse(response) },
                    );
                },
            }
            assert(self@ =~= old(self)@.processed(all.take(i + 1)));
        }
        assert(all.take(all.len() as int) =~= all);
    }

    /// Put a mutation at the end of those that wait to be logged.
    fn queue_write(&mut self, write: PendingWrite)
        ensures
            final(self).raft == old(self).raft,
            final(self).storage == old(self).storage,
            final(self).router == old(self).router,
            final(self)@ == (ClusterView {
                writes: old(self)@.writes.push(write@),
                ..old(self)@
            }),
    {
        let ghost before = self.pending_writes@;
        self.pending_writes.push(write);
        assert(write_views(self.pending_writes@) =~= write_views(before).push(write@));
    }

    /// Put a message at the end of those that wait to be sent.
    fn queue(&mut self, message: PeerMessage)
        ensures
            final(self).raft == old(self).raft,
            final(self).storage == old(self).storage,
            final(self).router == old(self).router,
            final(self)@ == (ClusterView {
                outbound: old(self)@.outbound.push(message@),
                ..old(self)@
            }),
    {
        let ghost before = self.outbound_messages@;
        self.outbound_messages.push(message);
        assert(message_views(self.outbound_messages@) =~= message_views(before).push(message@));
    }

    /// Take all messages that wait to be sent.
    pub fn take_outbound_messages(&mut self) -> (messages: Vec<PeerMessage>)
        requires
            old(self).wf(),
        ensures
            final(self).wf(),
            final(self).storage == old(self).storage,
            messages@ == old(self).outbound_messages@,
            final(self)@ == (ClusterView { outbound: Seq::empty(), ..old(self)@ }),
    {
        let mut messages: Vec<PeerMessage> = Vec::new();
        messages.append(&mut self.outbound_messages);
        assert(self@.outbound =~= Seq::empty());
        messages
    }

    /// The mutation that is to be logged next, if any waits.
    pub fn next_write(&self) -> (entry: Option<&WalEntry>)
        ensures
            match entry {
                Some(entry) => self@.writes.len() > 0 && entry@ == self@.writes[0].entry,
                None => self@.writes.len() == 0,
            },
    {
        if self.pending_writes.len() == 0 {
            return None;
        }
        Some(&self.pending_writes[0].entry)
    }

    /// Whether the storage engine has room for the mutation that is to be logged next, if any
    /// waits.
    pub fn has_room(&self) -> (fits: bool)
        requires
            self.wf(),
        ensures
            fits == self.has_room_for_next(),
    {
        if self.pending_writes.len() == 0 {
            return true;
        }
        self.storage.has_room(&self.pending_writes[0].entry)
    }

    /// Finish the mutation that was to be logged next: it takes effect if it was logged. If it was
    /// not, the node remembers that, so that the client is not told of success.
    pub fn finish_write<E>(&mut self, logged: Result<(), E>) -> (result: Result<(), E>)
        requires
            old(self).wf(),
            old(self)@.writes.len() > 0,
            logged is Ok ==> old(self).has_room_for_next(),
        ensures
            final(self).wf(),
            result == logged,
            final(self)@ == old(self)@.after_write(logged is Ok),
            final(self).storage.written() == old(self).storage.written() + (if logged is Ok {
                old(self)@.writes[0].entry.weight()
            } else {
                0
            }),
    {
        let write: PendingWrite = self.pending_writes.remove(0);
        assert(write_views(self.pending_writes@) =~= old(self)@.writes.drop_first());
        if logged.is_err() {
            self.unlogged.push(write.index);
        }
        self.storage.finish(&write.entry, logged)
    }

    /// How far the write has come that this node has appended at an index in a term.
    pub fn progress(&self, index: usize, term: u64) -> (progress: Progress)
        requires
            self.wf(),
        ensures
            progress == self@.progress(index, term),
    {
        if self.raft.state.commit_index < index {
            return Progress::Waiting;
        }
        if self.raft.state.log.term_at(index) != term {
            return Progress::Replaced;
        }
        for i in 0..self.unlogged.len()
            invariant
                self@.raft.state.commit_index >= index,
                log::term_of(self@.raft.state.log, index as int) == term,
                forall|j: int| 0 <= j < i ==> self.unlogged@[j] != index,
        {
            if self.unlogged[i] == index {
                assert(self@.unlogged[i as int] == index);
                return Progress::Unlogged;
            }
        }
        for i in 0..self.pending_writes.len()
            invariant
                self@.raft.state.commit_index >= index,
                log::term_of(self@.raft.state.log, index as int) == term,
                !self@.unlogged.contains(index),
                forall|j: int| 0 <= j < i ==> (#[trigger] self@.writes[j]).index != index,
        {
            assert(self@.writes[i as int] == self.pending_writes@[i as int]@);
            if self.pending_writes[i].index == index {
                assert(self@.writes[i as int].index == index);
                return Progress::Waiting;
            }
        }
        Progress::Done
    }
}

/// The mutation that a command of a client asks for, with the key that it is about: none, if the
/// command is not a write.
pub open spec fn requested(command: Command) -> Option<(Seq<char>, LogCommand)> {
    match command {
        Command::Put { key, value } => Some((key@, LogCommand::Put { key, value })),
        Command::Del { key } => Some((key@, LogCommand::Delete { key })),
        _ => None,
    }
}

/// A write is accepted exactly by the leader of the shard that owns the key. Any other command
/// changes nothing, and neither does a write that is refused, which is answered with an error.
pub proof fn law_only_the_leader_of_the_shard_accepts_writes(node: ClusterView, command: Command)
    ensures
        ({
            let (after, response) = node.on_command(command);
            let accepted = requested(command) matches Some((key, _)) && !node.is_foreign(key)
                && node.raft.state.role == NodeRole::Leader;
            &&& after.pending_commit_index is Some <==> accepted
            &&& !accepted ==> after == (ClusterView { pending_commit_index: None, ..node })
            &&& requested(command) is Some ==> (response is Error <==> !accepted)
        }),
{
}

/// Every command on a key of another shard is answered with the shard that owns the key.
pub proof fn law_foreign_keys_are_redirected(node: ClusterView, key: String, value: String)
    requires
        node.is_foreign(key@),
    ensures
        node.on_command(Command::Get { key }).1 == node.moved(key@),
        node.on_command(Command::Put { key, value }).1 == node.moved(key@),
        node.on_command(Command::Del { key }).1 == node.moved(key@),
        node.router matches Some(router) && (router.owner(key@) matches Some(shard_id)
            ==> shard_id != node.shard_id && node.moved(key@) == ResponseView::Error(
            "MOVED - key belongs to shard "@ + text::decimal(shard_id as nat),
        )),
{
}

/// A write that is accepted is the last entry of the log, in the leader's term, and it is this
/// entry that must be committed before the client is told. What was in the log stays.
pub proof fn law_accepted_write_awaits_its_commit(node: ClusterView, command: Command)
    requires
        node.raft.wf(),
        node.raft.state.log.len() < usize::MAX,
        node.on_command(command).0.pending_commit_index is Some,
    ensures
        ({
            let before = node.raft.state;
            let after = node.on_command(command).0;
            &&& requested(command) matches Some((key, write))
            &&& after.raft.state.log == before.log.push(
                LogEntry { term: before.current_term, command: write },
            )
            &&& after.pending_commit_index == Some((before.last_index() + 1) as usize)
            &&& after.raft.state.current_term == before.current_term
            &&& log::term_of(after.raft.state.log, before.last_index() + 1) == before.current_term
        }),
{
}

/// Mutations that are logged one by one take effect as if all were logged at once, in the order
/// in which they were committed; one that is not logged does not take effect.
pub proof fn law_writes_take_effect_in_order(node: ClusterView)
    requires
        node.writes.len() > 0,
    ensures
        node.after_write(true).settled() == node.settled(),
        node.after_write(false).table == node.table,
{
    lemma_first_of_many(mutations(node.writes), node.table);
    assert(mutations(node.writes.drop_first()) =~= mutations(node.writes).drop_first());
}

/// The first of some mutations may as well be applied before the rest.
proof fn lemma_first_of_many(writes: Seq<WalView>, table: Table)
    requires
        writes.len() > 0,
    ensures
        engine::applied_in_order(writes, table) == engine::applied_in_order(
            writes.drop_first(),
            writes[0].applied_to(table),
        ),
    decreases writes.len(),
{
    if writes.len() == 1 {
        reveal_with_fuel(engine::applied_in_order, 2);
        assert(writes.drop_last() =~= Seq::empty());
        assert(writes.drop_first() =~= Seq::empty());
    } else {
        lemma_first_of_many(writes.drop_last(), table);
        assert(writes.drop_last().drop_first() =~= writes.drop_first().drop_last());
    }
}

/// The mutations of joined actions are joined.
proof fn lemma_writes_add(front: Seq<ActionView>, back: Seq<ActionView>)
    ensures
        writes_of(front + back) == writes_of(front) + writes_of(back),
    decreases back.len(),
{
    if back.len() == 0 {
        assert(front + back =~= front);
        assert(writes_of(front) + writes_of(back) =~= writes_of(front));
    } else {
        lemma_writes_add(front, back.drop_last());
        assert((front + back).drop_last() =~= front + back.drop_last());
        assert(writes_of(front + back) =~= writes_of(front) + writes_of(back));
    }
}

/// What a leader sends asks for no mutation.
proof fn lemma_sending_writes_nothing(node: NodeView, peers: Seq<u64>)
    ensures
        writes_of(node.state.append_requests(peers)) == Seq::<WriteView>::empty(),
    decreases peers.len(),
{
    if peers.len() > 0 {
        lemma_sending_writes_nothing(node, peers.drop_last());
        let front = node.state.append_requests(peers.drop_last());
        let all = node.state.append_requests(peers);
        if all.len() > front.len() {
            assert(all.drop_last() =~= front);
        }
    }
}

/// On a cluster of one node a write is committed at once: when its mutations are logged, a client
/// reads the value that it has put, and nothing under a key that it has deleted.
pub proof fn law_single_node_reads_its_writes(node: ClusterView, command: Command)
    requires
        node.raft.wf(),
        node.raft.indices_ordered(),
        node.raft.state.log.len() < usize::MAX,
        node.raft.state.peers.len() == 1,
        node.on_command(command).0.pending_commit_index is Some,
    ensures
        ({
            let after = node.on_command(command).0.settled();
            &&& Some(after.raft.state.commit_index) == after.pending_commit_index
            &&& match command {
                Command::Put { key, value } => after.found(key@) == ResponseView::BulkString(
                    value@,
                ),
                Command::Del { key } => after.found(key@) == ResponseView::Null,
                _ => false,
            }
        }),
{
    let (key, write) = requested(command)->0;
    let before = node.raft.state;
    let state = before.with_entry(write);
    let last = state.last_index();
    assert(state.committable(last));
    assert(state.highest_committable(last) == last);
    let sent = state.append_requests(state.peers);
    let applied = model::apply_actions(state.log, state.last_applied as int, last);
    let front = model::apply_actions(state.log, state.last_applied as int, last - 1);
    let action = ActionView::ApplyEntry { index: last as usize, command: write };
    assert(applied == front.push(action));
    assert(applied.drop_last() =~= front);
    lemma_writes_add(sent, applied);
    let after = node.on_command(command).0;
    assert(after.writes == node.writes + writes_of(sent + applied));
    assert(after.writes.last().entry == mutation_of(write)->0);
    assert(mutations(after.writes).last() == mutation_of(write)->0);
}

/// The mutations that the commands of a log ask for, after index `from` and up to index `to`.
pub open spec fn mutations_in(log: Seq<LogEntry>, from: int, to: int) -> Seq<WalView>
    decreases to - from,
{
    if to <= from {
        Seq::empty()
    } else {
        let front = mutations_in(log, from, to - 1);
        if 0 <= to < log.len() {
            match mutation_of(log[to].command) {
                Some(write) => front.push(write),
                None => front,
            }
        } else {
            front
        }
    }
}

/// Committed commands are queued in the order of the log, each exactly once.
pub proof fn law_commands_are_queued_in_log_order(log: Seq<LogEntry>, from: int, to: int)
    ensures
        mutations(writes_of(model::apply_actions(log, from, to))) == mutations_in(log, from, to),
    decreases to - from,
{
    if to > from {
        law_commands_are_queued_in_log_order(log, from, to - 1);
        let front = model::apply_actions(log, from, to - 1);
        let all = model::apply_actions(log, from, to);
        if all.len() > front.len() {
            assert(all.drop_last() =~= front);
        }
        assert(mutations(writes_of(all)) =~= mutations_in(log, from, to));
    } else {
        assert(mutations(Seq::empty()) =~= Seq::empty());
    }
}

/// The last of some mutations of a key, if there is one.
spec fn last_for(entries: Seq<WalView>, key: Seq<char>) -> Option<WalView>
    decreases entries.len(),
{
    if entries.len() == 0 {
        None
    } else if entries.last().key == key {
        Some(entries.last())
    } else {
        last_for(entries.drop_last(), key)
    }
}

/// What a table has under a key is what the last mutation of the key has put there.
proof fn lemma_last_counts(entries: Seq<WalView>, table: Table, key: Seq<char>)
    ensures
        ({
            let after = engine::applied_in_order(entries, table);
            match last_for(entries, key) {
                Some(entry) => {
                    &&& entry.key == key
                    &&& after.contains_key(key)
                    &&& after[key] == entry.applied_to(table)[key]
                },
                None => {
                    &&& after.contains_key(key) <==> table.contains_key(key)
                    &&& after[key] == table[key]
                },
            }
        }),
    decreases entries.len(),
{
    if entries.len() > 0 {
        lemma_last_counts(entries.drop_last(), table, key);
    }
}

/// A node that restarts has its table from the write-ahead log, and applies the committed
/// commands once more, from the first. That changes nothing: the table ends as it was.
pub proof fn law_applying_again_changes_nothing(entries: Seq<WalView>, table: Table)
    ensures
        engine::applied_in_order(entries, engine::applied_in_order(entries, table))
            == engine::applied_in_order(entries, table),
{
    let once = engine::applied_in_order(entries, table);
    let twice = engine::applied_in_order(entries, once);
    assert forall|key: Seq<char>|
        (#[trigger] twice.contains_key(key) <==> once.contains_key(key)) && twice[key]
            == once[key] by {
        lemma_last_counts(entries, table, key);
        lemma_last_counts(entries, once, key);
    }
    assert(twice =~= once);
}

/// The mutations up to an index are those of the log up to that index.
proof fn lemma_mutations_of_prefix(a: Seq<LogEntry>, b: Seq<LogEntry>, from: int, to: int)
    requires
        0 <= to < a.len(),
        to < b.len(),
        a.take(to + 1) == b.take(to + 1),
        from >= 0,
    ensures
        mutations_in(a, from, to) == mutations_in(b, from, to),
    decreases to - from,
{
    if to > from {
        assert(a[to] == a.take(to + 1)[to]);
        assert(b[to] == b.take(to + 1)[to]);
        assert(a.take(to) =~= a.take(to + 1).take(to));
        assert(b.take(to) =~= b.take(to + 1).take(to));
        lemma_mutations_of_prefix(a, b, from, to - 1);
    }
}

/// Nodes that have committed up to the same index apply the same mutations in the same order, so
/// that clients read the same from all of them.
pub proof fn law_nodes_apply_the_same_mutations(
    run: Seq<System>,
    peers: Seq<u64>,
    i: int,
    a: u64,
    j: int,
    b: u64,
    index: int,
    table: Table,
)
    requires
        safety::is_run(run, peers),
        0 <= i < run.len(),
        0 <= j < run.len(),
        run[i].nodes.contains_key(a),
        run[j].nodes.contains_key(b),
        0 <= index <= run[i].nodes[a].state.commit_index,
        index <= run[j].nodes[b].state.commit_index,
    ensures
        mutations_in(safety::log_of(run, i, a), 0, index) == mutations_in(
            safety::log_of(run, j, b),
            0,
            index,
        ),
        engine::applied_in_order(mutations_in(safety::log_of(run, i, a), 0, index), table)
            == engine::applied_in_order(
            mutations_in(safety::log_of(run, j, b), 0, index),
            table,
        ),
{
    commit::law_nodes_commit_the_same_entries(run, peers, i, a, j, b, index);
    lemma_mutations_of_prefix(
        safety::log_of(run, i, a),
        safety::log_of(run, j, b),
        0,
        index,
    );
}

/// A node reflects its log: its table, once all its mutations are logged, is what the applied
/// commands of its log, from the first on, make of the table `start`.
pub open spec fn reflects_log(node: ClusterView, start: Table) -> bool {
    node.settled().table == engine::applied_in_order(
        mutations_in(node.raft.state.log, 0, node.raft.state.last_applied as int),
        start,
    )
}

/// A node that starts reflects its log: it has applied nothing to the table that it recovered.
pub proof fn law_started_node_reflects_the_log(
    raft: NodeView,
    contents: Seq<char>,
    router: Option<RouterView>,
    shard_id: u64,
)
    requires
        raft.state.last_applied == 0,
    ensures
        ({
            let node = ClusterView::started(raft, contents, router, shard_id);
            reflects_log(node, node.table)
        }),
{
}

/// What a step asks to be written are the commands that it applies.
proof fn lemma_only_commands_write(actions: Seq<ActionView>)
    ensures
        writes_of(actions) == writes_of(laws::applied_by(actions)),
    decreases actions.len(),
{
    if actions.len() > 0 {
        lemma_only_commands_write(actions.drop_last());
        let applied = laws::applied_by(actions);
        if actions.last() is ApplyEntry {
            assert(applied.drop_last() =~= laws::applied_by(actions.drop_last()));
        }
    }
}

/// Joined mutations have the effect of the first followed by that of the rest.
proof fn lemma_applied_in_turn(front: Seq<WalView>, back: Seq<WalView>, table: Table)
    ensures
        engine::applied_in_order(front + back, table) == engine::applied_in_order(
            back,
            engine::applied_in_order(front, table),
        ),
    decreases back.len(),
{
    if back.len() == 0 {
        assert(front + back =~= front);
    } else {
        lemma_applied_in_turn(front, back.drop_last(), table);
        assert((front + back).drop_last() =~= front + back.drop_last());
    }
}

/// The mutations of a log up to an index are those up to an earlier one and those after it.
proof fn lemma_mutations_add(log: Seq<LogEntry>, middle: int, to: int)
    requires
        0 <= middle <= to,
    ensures
        mutations_in(log, 0, to) == mutations_in(log, 0, middle) + mutations_in(log, middle, to),
    decreases to - middle,
{
    if middle < to {
        lemma_mutations_add(log, middle, to - 1);
    }
    assert(mutations_in(log, 0, to) =~= mutations_in(log, 0, middle) + mutations_in(
        log,
        middle,
        to,
    ));
}

/// A node goes on to reflect its log, whatever it takes in, as long as it runs and no leader
/// contradicts what is committed.
pub proof fn law_table_reflects_the_log(node: ClusterView, start: Table, input: Input)
    requires
        node.raft.can_take(input),
        node.raft.indices_ordered(),
        node.raft.spares_committed(input),
        !(input is Restart),
        reflects_log(node, start),
    ensures
        reflects_log(node.stepped(node.raft.step(input)), start),
{
    let (raft, actions) = node.raft.step(input);
    let after = node.stepped((raft, actions));
    let from = node.raft.state.last_applied as int;
    let to = raft.state.last_applied as int;
    laws::law_committed_entries_are_kept(node.raft, input);
    laws::law_entries_are_applied_in_order(node.raft, input);
    lemma_only_commands_write(actions);
    law_commands_are_queued_in_log_order(raft.state.log, from, to);
    let new = mutations(writes_of(actions));
    assert(new == mutations_in(raft.state.log, from, to));
    assert(mutations(after.writes) =~= mutations(node.writes) + new);
    lemma_applied_in_turn(mutations(node.writes), new, node.table);
    let bound = node.raft.state.commit_index + 1;
    assert(node.raft.state.log.take(from + 1) =~= node.raft.state.log.take(bound).take(from + 1));
    assert(raft.state.log.take(from + 1) =~= raft.state.log.take(bound).take(from + 1));
    lemma_mutations_of_prefix(node.raft.state.log, raft.state.log, 0, from);
    lemma_mutations_add(raft.state.log, from, to);
    lemma_applied_in_turn(mutations_in(raft.state.log, 0, from), new, start);
}

/// A node also goes on to reflect its log when a mutation is logged, and when a client's command
/// is carried out.
pub proof fn law_table_reflects_the_log_between_steps(
    node: ClusterView,
    start: Table,
    command: Command,
)
    requires
        node.raft.wf(),
        node.raft.indices_ordered(),
        node.raft.state.log.len() < usize::MAX,
        reflects_log(node, start),
    ensures
        node.writes.len() > 0 ==> reflects_log(node.after_write(true), start),
        reflects_log(node.on_command(command).0, start),
{
    if node.writes.len() > 0 {
        law_writes_take_effect_in_order(node);
    }
    if let Some((key, write)) = requested(command) {
        if !node.is_foreign(key) && node.raft.state.role == NodeRole::Leader {
            let input = Input::Propose { command: write };
            law_table_reflects_the_log(node, start, input);
            let after = node.stepped(node.raft.step(input));
            assert(node.on_command(command).0.settled().table == after.settled().table);
        }
    }
}

/// A node that restarts loses nothing by it. It recovers the table that it had when it had applied
/// the log up to `applied`; once it has applied as much again, it reflects its log as if it had
/// never stopped.
pub proof fn law_restarted_node_catches_up(
    node: ClusterView,
    start: Table,
    applied: int,
    recovered: Table,
)
    requires
        0 <= applied <= node.raft.state.last_applied,
        recovered == engine::applied_in_order(
            mutations_in(node.raft.state.log, 0, applied),
            start,
        ),
        reflects_log(node, recovered),
    ensures
        reflects_log(node, start),
{
    let log = node.raft.state.log;
    let last = node.raft.state.last_applied as int;
    let early = mutations_in(log, 0, applied);
    let late = mutations_in(log, applied, last);
    lemma_mutations_add(log, applied, last);
    lemma_applied_in_turn(early, late, recovered);
    lemma_applied_in_turn(early, late, start);
    law_applying_again_changes_nothing(early, start);
}

/// Whether an entry of the log writes a key.
pub open spec fn writes_key(entry: LogEntry, key: Seq<char>) -> bool {
    mutation_of(entry.command) matches Some(write) && write.key == key
}

/// An entry of the log is the last one up to an index that writes a key.
pub open spec fn is_last_write(log: Seq<LogEntry>, index: int, to: int, key: Seq<char>) -> bool {
    &&& 0 < index <= to < log.len()
    &&& writes_key(log[index], key)
    &&& forall|i: int| index < i <= to ==> !writes_key(#[trigger] log[i], key)
}

/// The last entry that writes a key gives the last mutation of it.
proof fn lemma_last_mutation(log: Seq<LogEntry>, index: int, to: int, key: Seq<char>)
    requires
        is_last_write(log, index, to, key),
    ensures
        last_for(mutations_in(log, 0, to), key) == mutation_of(log[index].command),
    decreases to,
{
    let front = mutations_in(log, 0, to - 1);
    if let Some(write) = mutation_of(log[to].command) {
        assert(front.push(write).drop_last() =~= front);
    }
    if index < to {
        assert(!writes_key(log[to], key));
        lemma_last_mutation(log, index, to - 1, key);
    }
}

/// On a node of any cluster a committed put is read: once its mutations are logged, a node that
/// has applied it, and no later write of the key, gives back the value that was put.
pub proof fn law_committed_write_is_read(
    node: ClusterView,
    start: Table,
    index: int,
    key: String,
    value: String,
)
    requires
        reflects_log(node, start),
        node.raft.state.log[index].command == (LogCommand::Put { key, value }),
        is_last_write(node.raft.state.log, index, node.raft.state.last_applied as int, key@),
    ensures
        node.settled().found(key@) == ResponseView::BulkString(value@),
        node.writes.len() == 0 && !node.is_foreign(key@) ==> node.on_command(
            Command::Get { key },
        ).1 == ResponseView::BulkString(value@),
{
    lemma_write_is_read(node, start, index, key@);
}

/// On a node of any cluster a committed deletion is read: once its mutations are logged, a node
/// that has applied it, and no later write of the key, finds nothing under the key.
pub proof fn law_committed_deletion_is_read(
    node: ClusterView,
    start: Table,
    index: int,
    key: String,
)
    requires
        reflects_log(node, start),
        node.raft.state.log[index].command == (LogCommand::Delete { key }),
        is_last_write(node.raft.state.log, index, node.raft.state.last_applied as int, key@),
    ensures
        node.settled().found(key@) == ResponseView::Null,
        node.writes.len() == 0 && !node.is_foreign(key@) ==> node.on_command(
            Command::Get { key },
        ).1 == ResponseView::Null,
{
    lemma_write_is_read(node, start, index, key@);
}

/// What a node that reflects its log has under a key is what the last command that writes the key
/// has put there.
proof fn lemma_write_is_read(node: ClusterView, start: Table, index: int, key: Seq<char>)
    requires
        reflects_log(node, start),
        is_last_write(node.raft.state.log, index, node.raft.state.last_applied as int, key),
    ensures
        ({
            let write = mutation_of(node.raft.state.log[index].command)->0;
            &&& node.settled().table.contains_key(key)
            &&& node.settled().table[key] == write.applied_to(start)[key]
            &&& node.writes.len() == 0 ==> node.settled().table == node.table
        }),
{
    let log = node.raft.state.log;
    let last = node.raft.state.last_applied as int;
    lemma_last_mutation(log, index, last, key);
    lemma_last_counts(mutations_in(log, 0, last), start, key);
}

/// In a run of a cluster every node goes on to reflect its log, whatever it takes in, as long as
/// it does not restart.
pub proof fn law_tables_reflect_the_logs_in_a_run(
    run: Seq<System>,
    peers: Seq<u64>,
    k: int,
    id: u64,
    input: Input,
    node: ClusterView,
    start: Table,
)
    requires
        safety::is_run(run, peers),
        0 <= k < run.len() - 1,
        run[k].takes(id, input, run[k + 1]),
        !(input is Restart),
        node.raft == run[k].nodes[id],
        reflects_log(node, start),
    ensures
        node.stepped(node.raft.step(input)).raft == run[k + 1].nodes[id],
        reflects_log(node.stepped(node.raft.step(input)), start),
{
    commit::law_indices_are_ordered(run, peers, k, id);
    commit::law_committed_entries_are_spared(run, peers, k, id, input);
    law_table_reflects_the_log(node, start, input);
}

/// No confirmed write is lost. The node `id` had a write of some term at an index; later it knew
/// that the index was committed, and found an entry of that term there, so that the client was
/// told of success. Then on every node of the cluster that has applied that index, and no later
/// write of the key, the write is read, whoever leads by then.
pub proof fn law_confirmed_write_is_read_everywhere(
    run: Seq<System>,
    peers: Seq<u64>,
    j: int,
    k: int,
    id: u64,
    term: u64,
    index: int,
    command: Command,
    m: int,
    other: u64,
    node: ClusterView,
    start: Table,
)
    requires
        safety::is_run(run, peers),
        0 <= j <= k < run.len(),
        run[j].nodes.contains_key(id),
        0 < index < safety::log_of(run, j, id).len(),
        requested(command) matches Some((_, write)) && safety::log_of(run, j, id)[index] == (
        LogEntry { term, command: write }),
        index <= run[k].nodes[id].state.commit_index,
        log::term_of(safety::log_of(run, k, id), index) == term,
        0 <= m < run.len(),
        run[m].nodes.contains_key(other),
        node.raft == run[m].nodes[other],
        reflects_log(node, start),
        index <= node.raft.state.last_applied,
        forall|i: int|
            index < i <= node.raft.state.last_applied ==> !writes_key(
                #[trigger] node.raft.state.log[i],
                (requested(command)->0).0,
            ),
    ensures
        match command {
            Command::Put { key, value } => node.settled().found(key@) == ResponseView::BulkString(
                value@,
            ),
            Command::Del { key } => node.settled().found(key@) == ResponseView::Null,
            _ => false,
        },
{
    let first = safety::log_of(run, j, id);
    let confirmed = safety::log_of(run, k, id);
    let here = node.raft.state.log;
    safety::lemma_votes_stay(run, peers, j, k, id);
    commit::law_indices_are_ordered(run, peers, k, id);
    commit::law_indices_are_ordered(run, peers, m, other);
    safety::law_logs_match(run, peers, j, k, id, id, index);
    commit::law_nodes_commit_the_same_entries(run, peers, k, id, m, other, index);
    assert(first[index] == first.take(index + 1)[index]);
    assert(confirmed[index] == confirmed.take(index + 1)[index]);
    assert(here[index] == here.take(index + 1)[index]);
    match command {
        Command::Put { key, value } => {
            law_committed_write_is_read(node, start, index, key, value);
        },
        Command::Del { key } => {
            law_committed_deletion_is_read(node, start, index, key);
        },
        _ => {},
    }
}

/// The command at an index has been dealt with: its mutation is logged, waits to be logged, or
/// could not be logged.
pub open spec fn is_dealt_with(node: ClusterView, logged: Set<usize>, index: usize) -> bool {
    logged.contains(index) || node.awaits_log(index) || node.unlogged.contains(index)
}

/// A node accounts for its mutations: all commands that it has applied have been dealt with, where
/// `logged` are the indices of those that the write-ahead log has recorded.
pub open spec fn accounts_for(node: ClusterView, logged: Set<usize>) -> bool {
    forall|index: usize|
        0 < index <= node.raft.state.last_applied && mutation_of(
            node.raft.state.log[index as int].command,
        ) is Some ==> #[trigger] is_dealt_with(node, logged, index)
}

/// A command that is applied and asks for a mutation is queued under its index.
proof fn lemma_command_is_queued(log: Seq<LogEntry>, from: int, to: int, index: int)
    requires
        0 <= from < index <= to < log.len(),
        to <= usize::MAX,
        mutation_of(log[index].command) is Some,
    ensures
        exists|i: int|
            0 <= i < writes_of(model::apply_actions(log, from, to)).len() && #[trigger] writes_of(
                model::apply_actions(log, from, to),
            )[i].index == index,
    decreases to,
{
    let front = model::apply_actions(log, from, to - 1);
    let all = model::apply_actions(log, from, to);
    if all.len() > front.len() {
        assert(all.drop_last() =~= front);
    }
    if index == to {
        let last = writes_of(all).len() - 1;
        assert(writes_of(all)[last].index == index);
    } else {
        lemma_command_is_queued(log, from, to - 1, index);
        let i = choose|i: int|
            0 <= i < writes_of(front).len() && #[trigger] writes_of(front)[i].index == index;
        assert(writes_of(all)[i].index == index);
    }
}

/// A node that starts accounts for its mutations, and goes on to do so with each step, each
/// mutation that is logged, and each that cannot be logged.
pub proof fn law_mutations_are_accounted_for(node: ClusterView, logged: Set<usize>, input: Input)
    requires
        node.raft.can_take(input),
        node.raft.indices_ordered(),
        node.raft.spares_committed(input),
    ensures
        node.raft.state.last_applied == 0 ==> accounts_for(node, logged),
        accounts_for(node, logged) ==> accounts_for(node.stepped(node.raft.step(input)), logged),
        accounts_for(node, logged) && node.writes.len() > 0 ==> {
            &&& accounts_for(node.after_write(true), logged.insert(node.writes[0].index))
            &&& accounts_for(node.after_write(false), logged)
        },
{
    if accounts_for(node, logged) {
        lemma_step_accounts(node, logged, input);
        if node.writes.len() > 0 {
            lemma_write_accounts(node, logged);
        }
    }
}

/// A step deals with all commands that it applies.
proof fn lemma_step_accounts(node: ClusterView, logged: Set<usize>, input: Input)
    requires
        node.raft.can_take(input),
        node.raft.indices_ordered(),
        node.raft.spares_committed(input),
        accounts_for(node, logged),
    ensures
        accounts_for(node.stepped(node.raft.step(input)), logged),
{
    let (raft, actions) = node.raft.step(input);
    let after = node.stepped((raft, actions));
    let from = node.raft.state.last_applied as int;
    let to = raft.state.last_applied as int;
    let bound = node.raft.state.commit_index + 1;
    laws::law_committed_entries_are_kept(node.raft, input);
    if !(input is Restart) {
        laws::law_entries_are_applied_in_order(node.raft, input);
        lemma_only_commands_write(actions);
    }
    assert forall|index: usize|
        0 < index <= to && mutation_of(
            raft.state.log[index as int].command,
        ) is Some implies #[trigger] is_dealt_with(after, logged, index) by {
        if index <= from {
            assert(raft.state.log[index as int] == raft.state.log.take(bound)[index as int]);
            assert(node.raft.state.log[index as int] == node.raft.state.log.take(
                bound,
            )[index as int]);
            assert(is_dealt_with(node, logged, index));
            if node.awaits_log(index) {
                let i = choose|i: int|
                    0 <= i < node.writes.len() && #[trigger] node.writes[i].index == index;
                assert(after.writes[i].index == index);
            }
        } else {
            lemma_command_is_queued(raft.state.log, from, to, index as int);
            let queued = writes_of(actions);
            let i = choose|i: int|
                0 <= i < queued.len() && #[trigger] queued[i].index == index;
            assert(after.writes[node.writes.len() + i].index == index);
        }
    }
}

/// A mutation that was to be logged stays dealt with.
proof fn lemma_write_accounts(node: ClusterView, logged: Set<usize>)
    requires
        accounts_for(node, logged),
        node.writes.len() > 0,
    ensures
        accounts_for(node.after_write(true), logged.insert(node.writes[0].index)),
        accounts_for(node.after_write(false), logged),
{
    let first = node.writes[0].index;
    let done = node.after_write(true);
    let failed = node.after_write(false);
    assert forall|index: usize|
        #![trigger is_dealt_with(done, logged.insert(first), index)]
        #![trigger is_dealt_with(failed, logged, index)]
        0 < index <= node.raft.state.last_applied && mutation_of(
            node.raft.state.log[index as int].command,
        ) is Some implies is_dealt_with(done, logged.insert(first), index) && is_dealt_with(
        failed,
        logged,
        index,
    ) by {
        assert(is_dealt_with(node, logged, index));
        assert(failed.unlogged[node.unlogged.len() as int] == first);
        if node.unlogged.contains(index) {
            let i = choose|i: int| 0 <= i < node.unlogged.len() && node.unlogged[i] == index;
            assert(failed.unlogged[i] == index);
        }
        if node.awaits_log(index) && index != first {
            let i = choose|i: int|
                0 <= i < node.writes.len() && #[trigger] node.writes[i].index == index;
            assert(done.writes[i - 1].index == index);
            assert(failed.writes[i - 1].index == index);
        }
    }
}

/// No client is told of success before its write is logged. On a node that accounts for its
/// mutations and has applied all that it knows to be committed, a write that is done is one that
/// the write-ahead log has recorded.
pub proof fn law_confirmed_write_is_logged(
    node: ClusterView,
    logged: Set<usize>,
    index: usize,
    term: u64,
)
    requires
        accounts_for(node, logged),
        node.raft.state.last_applied == node.raft.state.commit_index,
        index > 0,
        mutation_of(node.raft.state.log[index as int].command) is Some,
        node.progress(index, term) == Progress::Done,
    ensures
        logged.contains(index),
{
    assert(is_dealt_with(node, logged, index));
}

/// A write that could not be logged is never confirmed: the node remembers it, whatever it does.
pub proof fn law_unlogged_write_is_never_confirmed(
    node: ClusterView,
    index: usize,
    term: u64,
    input: Input,
    command: Command,
    logged: bool,
)
    requires
        node.unlogged.contains(index) || node.writes.len() > 0 && node.writes[0].index == index
            && !logged,
    ensures
        node.unlogged.contains(index) ==> {
            &&& node.progress(index, term) != Progress::Done
            &&& node.stepped(node.raft.step(input)).unlogged.contains(index)
            &&& node.on_command(command).0.unlogged.contains(index)
        },
        node.writes.len() > 0 ==> {
            &&& node.after_write(logged).unlogged.contains(index)
            &&& node.after_write(logged).progress(index, term) != Progress::Done
        },
{
    if node.writes.len() > 0 {
        let after = node.after_write(logged);
        if node.unlogged.contains(index) {
            let i = choose|i: int| 0 <= i < node.unlogged.len() && node.unlogged[i] == index;
            assert(after.unlogged[i] == index);
        } else {
            assert(after.unlogged[node.unlogged.len() as int] == index);
        }
    }
}

} // verus!
