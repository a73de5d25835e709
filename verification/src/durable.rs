//! A cluster node whose state is saved before anything that depends on it leaves the node.

use crate::cluster::{ClusterNode, ClusterView, PeerMessage, Progress};
use crate::network::protocol::{Command, Response};
use crate::network::server::{PendingReply, Poll};
use crate::raft::persist::PersistentState;
use crate::storage::wal::WalEntry;
use crate::transport::{NetworkMessage, PeerTransport};
use vstd::prelude::*;

verus! {

/// What a [`DurableNode`] holds.
#[verifier::ext_equal]
pub struct DurableView {
    pub cluster: ClusterView,
    /// Whether the state is on stable storage as it is in memory.
    pub is_saved: bool,
}

impl DurableView {
    /// How far the write has come that the node has appended at an index in a term. As long as the
    /// state is not saved, the write waits.
    pub open spec fn progress(self, index: usize, term: u64) -> Progress {
        if self.is_saved {
            self.cluster.progress(index, term)
        } else {
            Progress::Waiting
        }
    }
}

/// A cluster node, and whether its state is saved.
///
/// Each step leaves the node unsaved. The caller then saves what [`DurableNode::state_to_save`]
/// gives and says how that went. Until it went well, no message leaves the node, no mutation is
/// logged, and no client is told that its write is done.
pub struct DurableNode {
    pub cluster: ClusterNode,
    /// Whether the state is on stable storage as it is in memory.
    pub is_saved: bool,
}

impl View for DurableNode {
    type V = DurableView;

    open spec fn view(&self) -> DurableView {
        DurableView { cluster: self.cluster@, is_saved: self.is_saved }
    }
}

impl DurableNode {
    /// The cluster node is in order.
    pub open spec fn wf(&self) -> bool {
        self.cluster.wf()
    }

    /// A node that has just started from what is on stable storage.
    pub fn new(cluster: ClusterNode) -> (node: Self)
        ensures
            node.cluster == cluster,
            node.is_saved,
    {
        DurableNode { cluster, is_saved: true }
    }

    /// Carry out a command of a client. The reply to a write that was accepted is held until the
    /// write is done.
    pub fn handle_client_command(&mut self, command: Command) -> (poll: Poll)
        requires
            old(self).wf(),
        ensures
            final(self).wf(),
            final(self).cluster.storage == old(self).cluster.storage,
            final(self)@ == (DurableView {
                cluster: old(self)@.cluster.on_command(command).0,
                is_saved: false,
            }),
            match final(self)@.cluster.pending_commit_index {
                Some(index) => {
                    &&& poll matches Poll::Wait(held)
                    &&& held.index == index
                    &&& held.term == final(self)@.cluster.raft.state.current_term
                    &&& held.reply@ == old(self)@.cluster.on_command(command).1
                },
                None => {
                    &&& poll matches Poll::Ready(reply)
                    &&& reply@ == old(self)@.cluster.on_command(command).1
                },
            },
    {
        self.is_saved = false;
        let reply: Response = self.cluster.handle_client_command(command);
        PendingReply::hold(
            self.cluster.pending_commit_index,
            self.cluster.raft.state.current_term,
            reply,
        )
    }

    /// Let one tick pass. The node must have a term left, as
    /// [`RaftNode::can_tick`](crate::raft::node::RaftNode::can_tick) tells.
    pub fn tick(&mut self)
        requires
            old(self).wf(),
            old(self)@.cluster.raft.has_term_left(),
        ensures
            final(self).wf(),
            final(self).cluster.storage == old(self).cluster.storage,
            final(self)@ == (DurableView {
                cluster: old(self)@.cluster.stepped(old(self)@.cluster.raft.on_tick()),
                is_saved: false,
            }),
    {
        self.is_saved = false;
        self.cluster.tick();
    }

    /// Take a message of another node. It must be in range, as [`PeerTransport::is_in_range`]
    /// tells.
    pub fn receive(&mut self, message: NetworkMessage)
        requires
            old(self).wf(),
            old(self)@.cluster.is_in_range(message@),
        ensures
            final(self).wf(),
            final(self).cluster.storage == old(self).cluster.storage,
            final(self)@ == (DurableView {
                cluster: old(self)@.cluster.on_message(message@),
                is_saved: false,
            }),
    {
        self.is_saved = false;
        PeerTransport::dispatch_message(&mut self.cluster, message);
    }

    /// What must be saved after a step.
    pub fn state_to_save(&self) -> (state: PersistentState)
        requires
            self.wf(),
        ensures
            state@ == self@.cluster.raft.persistent(),
    {
        self.cluster.raft.persistent_state()
    }

    /// Take note of how it went to save the state that the node has now.
    pub fn finish_save<E>(&mut self, saved: Result<(), E>) -> (result: Result<(), E>)
        ensures
            result == saved,
            final(self).cluster == old(self).cluster,
            final(self).is_saved == saved is Ok,
    {
        self.is_saved = saved.is_ok();
        saved
    }

    /// Take the messages that wait to be sent: none, as long as the state is not saved.
    pub fn take_outbound_messages(&mut self) -> (messages: Vec<PeerMessage>)
        requires
            old(self).wf(),
        ensures
            final(self).wf(),
            final(self).cluster.storage == old(self).cluster.storage,
            old(self).is_saved ==> {
                &&& messages@ == old(self).cluster.outbound_messages@
                &&& final(self)@.cluster == (ClusterView {
                    outbound: Seq::empty(),
                    ..old(self)@.cluster
                })
            },
            !old(self).is_saved ==> messages@.len() == 0 && final(self)@ == old(self)@,
            final(self).is_saved == old(self).is_saved,
    {
        if !self.is_saved {
            return Vec::new();
        }
        self.cluster.take_outbound_messages()
    }

    /// The mutation that is to be logged next: none, as long as the state is not saved.
    pub fn next_write(&self) -> (entry: Option<&WalEntry>)
        ensures
            match entry {
                Some(entry) => {
                    &&& self.is_saved
                    &&& self@.cluster.writes.len() > 0
                    &&& entry@ == self@.cluster.writes[0].entry
                },
                None => !self.is_saved || self@.cluster.writes.len() == 0,
            },
    {
        if !self.is_saved {
            return None;
        }
        self.cluster.next_write()
    }

    /// Finish the mutation that was to be logged next. There must be room for it, as
    /// [`ClusterNode::has_room`] tells.
    pub fn finish_write<E>(&mut self, logged: Result<(), E>) -> (result: Result<(), E>)
        requires
            old(self).wf(),
            old(self)@.cluster.writes.len() > 0,
            logged is Ok ==> old(self).cluster.has_room_for_next(),
        ensures
            final(self).wf(),
            result == logged,
            final(self)@ == (DurableView {
                cluster: old(self)@.cluster.after_write(logged is Ok),
                ..old(self)@
            }),
            final(self).cluster.storage.written() == old(self).cluster.storage.written() + (
            if logged is Ok {
                old(self)@.cluster.writes[0].entry.weight()
            } else {
                0
            }),
    {
        self.cluster.finish_write(logged)
    }

    /// How far the write has come that this node has appended at an index in a term.
    pub fn progress(&self, index: usize, term: u64) -> (progress: Progress)
        requires
            self.wf(),
        ensures
            progress == self@.progress(index, term),
    {
        if !self.is_saved {
            return Progress::Waiting;
        }
        self.cluster.progress(index, term)
    }
}

} // verus!
