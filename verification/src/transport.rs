//! The peer side: where the other nodes are, and what travels between nodes.

use crate::cluster;
use crate::cluster::{ClusterNode, ClusterView, MessagePayload, PayloadView, PeerMessage, PeerView};
use crate::raft::message::{
    AppendEntriesRequest, AppendEntriesResponse, AppendEntriesView, RequestVoteRequest,
    RequestVoteResponse,
};
use crate::raft::model;
use crate::raft::node::{Action, tracks_node};
use crate::raft::state::NodeRole;
use crate::text;
use crate::text::push_decimal;
use std::collections::HashMap;
use vstd::prelude::*;
use vstd::string::*;

verus! {

broadcast use vstd::std_specs::hash::group_hash_axioms;

/// The host of a node for which none is given.
pub const LOCAL_HOST: &'static str = "127.0.0.1";

/// A message between nodes. It says who sent it, so that the receiver can count the answer.
#[derive(Debug)]
#[allow(inconsistent_fields)]
pub enum NetworkMessage {
    RequestVote { from: u64, request: RequestVoteRequest },
    RequestVoteResponse { from: u64, response: RequestVoteResponse },
    AppendEntries { from: u64, request: AppendEntriesRequest },
    AppendEntriesResponse { from: u64, response: AppendEntriesResponse },
}

/// What a [`NetworkMessage`] says.
#[verifier::ext_equal]
#[allow(inconsistent_fields)]
pub enum NetworkView {
    RequestVote { from: u64, request: RequestVoteRequest },
    RequestVoteResponse { from: u64, response: RequestVoteResponse },
    AppendEntries { from: u64, request: AppendEntriesView },
    AppendEntriesResponse { from: u64, response: AppendEntriesResponse },
}

impl View for NetworkMessage {
    type V = NetworkView;

    open spec fn view(&self) -> NetworkView {
        match *self {
            NetworkMessage::RequestVote { from, request } => NetworkView::RequestVote {
                from,
                request,
            },
            NetworkMessage::RequestVoteResponse { from, response } =>
                NetworkView::RequestVoteResponse { from, response },
            NetworkMessage::AppendEntries { from, request } => NetworkView::AppendEntries {
                from,
                request: request@,
            },
            NetworkMessage::AppendEntriesResponse { from, response } =>
                NetworkView::AppendEntriesResponse { from, response },
        }
    }
}

/// A payload with its sender.
pub open spec fn signed(from: u64, payload: PayloadView) -> NetworkView {
    match payload {
        PayloadView::RequestVote(request) => NetworkView::RequestVote { from, request },
        PayloadView::RequestVoteResponse(response) => NetworkView::RequestVoteResponse {
            from,
            response,
        },
        PayloadView::AppendEntries(request) => NetworkView::AppendEntries { from, request },
        PayloadView::AppendEntriesResponse(response) => NetworkView::AppendEntriesResponse {
            from,
            response,
        },
    }
}

/// A node of the cluster, and the ports on which it listens.
#[derive(Debug, Clone, Copy)]
pub struct NodeConfig {
    pub id: u64,
    pub client_port: u16,
    pub peer_port: u16,
}

/// Find a node by its ID: the first one that has it.
pub fn find_node(all_nodes: &[NodeConfig], id: u64) -> (found: Option<NodeConfig>)
    ensures
        match found {
            Some(config) => exists|at: int|
                {
                    &&& 0 <= at < all_nodes@.len()
                    &&& #[trigger] all_nodes@[at] == config
                    &&& config.id == id
                    &&& forall|earlier: int|
                        0 <= earlier < at ==> (#[trigger] all_nodes@[earlier]).id != id
                },
            None => forall|at: int| 0 <= at < all_nodes@.len() ==> (#[trigger] all_nodes@[at]).id != id,
        },
{
    let mut i: usize = 0;
    while i < all_nodes.len()
        invariant
            i <= all_nodes@.len(),
            forall|at: int| 0 <= at < i ==> (#[trigger] all_nodes@[at]).id != id,
        decreases all_nodes@.len() - i,
    {
        if all_nodes[i].id == id {
            assert(all_nodes@[i as int].id == id);
            return Some(all_nodes[i]);
        }
        i += 1;
    }
    None
}

/// The name of the environment variable that gives the host of a node.
pub fn host_variable(id: u64) -> (name: String)
    ensures
        name@ == "PEER_HOST_"@ + text::decimal(id as nat),
{
    let mut name: String = String::new();
    name.append("PEER_HOST_");
    push_decimal(&mut name, id);
    assert(name@ =~= "PEER_HOST_"@ + text::decimal(id as nat));
    name
}

/// A host and a port.
pub open spec fn address(host: Seq<char>, port: u16) -> Seq<char> {
    host + ":"@ + text::decimal(port as nat)
}

/// The host that is given for a node, or else the local host.
pub open spec fn host_of(host: Option<String>) -> Seq<char> {
    match host {
        Some(host) => host@,
        None => LOCAL_HOST@,
    }
}

/// The addresses of all nodes but one.
pub open spec fn addresses_of_others(
    node_id: u64,
    all_nodes: Seq<NodeConfig>,
    hosts: Seq<Option<String>>,
) -> Map<u64, Seq<char>>
    decreases all_nodes.len(),
{
    if all_nodes.len() == 0 {
        Map::empty()
    } else {
        let front = addresses_of_others(node_id, all_nodes.drop_last(), hosts);
        let config = all_nodes.last();
        if config.id == node_id {
            front
        } else {
            front.insert(
                config.id,
                address(host_of(hosts[all_nodes.len() - 1]), config.peer_port),
            )
        }
    }
}

/// The messages that can be sent, each with the address of its receiver and with its sender: one
/// for a node without an address is dropped.
pub open spec fn addressed(
    from: u64,
    addresses: Map<u64, Seq<char>>,
    messages: Seq<PeerView>,
) -> Seq<(Seq<char>, NetworkView)>
    decreases messages.len(),
{
    if messages.len() == 0 {
        Seq::empty()
    } else {
        let front = addressed(from, addresses, messages.drop_last());
        let message = messages.last();
        if addresses.contains_key(message.to) {
            front.push((addresses[message.to], signed(from, message.payload)))
        } else {
            front
        }
    }
}

/// What some addressed messages say.
pub open spec fn envelope_views(envelopes: Seq<(String, NetworkMessage)>) -> Seq<
    (Seq<char>, NetworkView),
> {
    envelopes.map_values(|envelope: (String, NetworkMessage)| (envelope.0@, envelope.1@))
}

/// Knows where the other nodes are.
pub struct PeerTransport {
    pub node_id: u64,
    /// The address of each other node, as host and port.
    pub peer_addresses: HashMap<u64, String>,
}

impl View for PeerTransport {
    type V = Map<u64, Seq<char>>;

    open spec fn view(&self) -> Map<u64, Seq<char>> {
        self.peer_addresses@.map_values(|address: String| address@)
    }
}

impl ClusterView {
    /// The node after a message of another node.
    pub open spec fn on_message(self, message: NetworkView) -> ClusterView {
        self.stepped(
            match message {
                NetworkView::RequestVote { from, request } => self.raft.on_request_vote(request),
                NetworkView::RequestVoteResponse { from, response } =>
                    self.raft.on_request_vote_response(from, response),
                NetworkView::AppendEntries { from, request } => self.raft.on_append_entries(
                    request,
                ),
                NetworkView::AppendEntriesResponse { from, response } =>
                    self.raft.on_append_entries_response(from, response),
            },
        )
    }

    /// Whether the indices that a message leads to fit the machine: after the index that is
    /// confirmed to a leader there is a next one.
    pub open spec fn is_in_range(self, message: NetworkView) -> bool {
        match message {
            NetworkView::AppendEntriesResponse { from, response } => self.raft.state.role
                == NodeRole::Leader && response.success && response.term
                == self.raft.state.current_term && model::tracks(self.raft.state.next_index, from) ==> response.match_index
                != Some(usize::MAX),
            _ => true,
        }
    }
}

impl PeerTransport {
    /// The transport of a node, given all nodes of the cluster and, for each of them, its host
    /// where one is known.
    pub fn new(node_id: u64, all_nodes: &[NodeConfig], hosts: &[Option<String>]) -> (transport: Self)
        requires
            hosts@.len() == all_nodes@.len(),
        ensures
            transport.node_id == node_id,
            transport@ == addresses_of_others(node_id, all_nodes@, hosts@),
    {
        let mut transport = PeerTransport { node_id, peer_addresses: HashMap::new() };
        let mut i: usize = 0;
        assert(transport@ =~= addresses_of_others(node_id, all_nodes@.take(0), hosts@));
        while i < all_nodes.len()
            invariant
                i <= all_nodes@.len(),
                hosts@.len() == all_nodes@.len(),
                transport.node_id == node_id,
                transport@ == addresses_of_others(node_id, all_nodes@.take(i as int), hosts@),
            decreases all_nodes@.len() - i,
        {
            let config: NodeConfig = all_nodes[i];
            assert(all_nodes@.take(i + 1).drop_last() =~= all_nodes@.take(i as int));
            if config.id != node_id {
                let mut place: String = String::new();
                match &hosts[i] {
                    Some(host) => {
                        place.append(host.as_str());
                    },
                    None => {
                        place.append(LOCAL_HOST);
                    },
                }
                place.append(":");
                push_decimal(&mut place, config.peer_port as u64);
                assert(place@ =~= address(host_of(hosts@[i as int]), config.peer_port));
                let ghost before = transport@;
                let _ = transport.peer_addresses.insert(config.id, place);
                assert(transport@ =~= before.insert(config.id, place@));
            }
            i += 1;
        }
        assert(all_nodes@.take(i as int) =~= all_nodes@);
        transport
    }

    /// The transport of a node whose peers' addresses are known.
    pub fn from_addresses(node_id: u64, peer_addresses: HashMap<u64, String>) -> (transport: Self)
        ensures
            transport.node_id == node_id,
            transport.peer_addresses == peer_addresses,
    {
        PeerTransport { node_id, peer_addresses }
    }

    /// Put the address of its receiver and its sender on each message. A message for a node
    /// without an address is dropped: the protocol tolerates that messages are lost.
    pub fn address_messages(&self, messages: Vec<PeerMessage>) -> (envelopes: Vec<
        (String, NetworkMessage),
    >)
        ensures
            envelope_views(envelopes@) == addressed(
                self.node_id,
                self@,
                cluster::message_views(messages@),
            ),
    {
        let mut envelopes: Vec<(String, NetworkMessage)> = Vec::new();
        let ghost all = cluster::message_views(messages@);
        let ghost given = messages@;
        assert(all.take(0) =~= Seq::empty());
        assert(envelope_views(envelopes@) =~= Seq::empty());
        for message in taken: messages
            invariant
                taken.seq() == given,
                all == cluster::message_views(given),
                envelope_views(envelopes@) == addressed(
                    self.node_id,
                    self@,
                    all.take(taken.index() as int),
                ),
        {
            let ghost i = taken.index() as int;
            assert(message == given[i]);
            assert(all[i] == message@);
            assert(all.take(i + 1).drop_last() =~= all.take(i));
            assert(all.take(i + 1).last() == message@);
            assert(self@.contains_key(message.to) <==> self.peer_addresses@.contains_key(
                message.to,
            ));
            if let Some(place) = self.peer_addresses.get(&message.to) {
                let place: String = place.clone();
                let sent: NetworkMessage = self.sign(message.payload);
                let ghost before = envelopes@;
                envelopes.push((place, sent));
                assert(envelope_views(envelopes@) =~= envelope_views(before).push(
                    (place@, sent@),
                ));
            }
        }
        assert(all.take(all.len() as int) =~= all);
        envelopes
    }

    /// A payload with this node as its sender.
    fn sign(&self, payload: MessagePayload) -> (message: NetworkMessage)
        ensures
            message@ == signed(self.node_id, payload@),
    {
        match payload {
            MessagePayload::RequestVote(request) => NetworkMessage::RequestVote {
                from: self.node_id,
                request,
            },
            MessagePayload::RequestVoteResponse(response) => NetworkMessage::RequestVoteResponse {
                from: self.node_id,
                response,
            },
            MessagePayload::AppendEntries(request) => NetworkMessage::AppendEntries {
                from: self.node_id,
                request,
            },
            MessagePayload::AppendEntriesResponse(response) =>
                NetworkMessage::AppendEntriesResponse { from: self.node_id, response },
        }
    }

    /// Whether the indices that a message leads to fit the machine.
    pub fn is_in_range(node: &ClusterNode, message: &NetworkMessage) -> (fits: bool)
        ensures
            fits == node@.is_in_range(message@),
    {
        match message {
            NetworkMessage::AppendEntriesResponse { from, response } => {
                let largest: bool = match response.match_index {
                    Some(index) => index == usize::MAX,
                    None => false,
                };
                !largest || node.raft.state.role != NodeRole::Leader || !response.success
                    || response.term != node.raft.state.current_term || !tracks_node(
                    &node.raft.state.next_index,
                    *from,
                )
            },
            _ => true,
        }
    }

    /// Hand a message of another node to the Raft node, and take note of what that asks for.
    pub fn dispatch_message(node: &mut ClusterNode, message: NetworkMessage)
        requires
            old(node).wf(),
            old(node)@.is_in_range(message@),
        ensures
            final(node).wf(),
            final(node).storage == old(node).storage,
            final(node)@ == old(node)@.on_message(message@),
    {
        let actions: Vec<Action> = match message {
            NetworkMessage::RequestVote { from: _, request } => node.raft.handle_request_vote(
                request,
            ),
            NetworkMessage::RequestVoteResponse { from, response } =>
                node.raft.handle_request_vote_response(from, response),
            NetworkMessage::AppendEntries { from: _, request } => node.raft.handle_append_entries(
                request,
            ),
            NetworkMessage::AppendEntriesResponse { from, response } =>
                node.raft.handle_append_entries_response(from, response),
        };
        node.process_actions(actions);
    }
}

/// A transport knows the address of every other node of the cluster, and none of its own: it sends
/// nothing to itself.
pub proof fn law_every_other_node_has_an_address(
    node_id: u64,
    all_nodes: Seq<NodeConfig>,
    hosts: Seq<Option<String>>,
)
    ensures
        !addresses_of_others(node_id, all_nodes, hosts).contains_key(node_id),
        forall|at: int|
            0 <= at < all_nodes.len() && (#[trigger] all_nodes[at]).id != node_id
                ==> addresses_of_others(node_id, all_nodes, hosts).contains_key(all_nodes[at].id),
    decreases all_nodes.len(),
{
    if all_nodes.len() > 0 {
        let front = all_nodes.drop_last();
        law_every_other_node_has_an_address(node_id, front, hosts);
        assert forall|at: int|
            0 <= at < all_nodes.len() && (#[trigger] all_nodes[at]).id
                != node_id implies addresses_of_others(node_id, all_nodes, hosts).contains_key(
            all_nodes[at].id,
        ) by {
            if at < front.len() {
                assert(front[at] == all_nodes[at]);
            }
        }
    }
}

/// What is sent is what was queued, in order, if every receiver has an address: the receiver gets
/// the payload, with its sender.
pub proof fn law_no_message_is_lost_on_the_way_out(
    from: u64,
    addresses: Map<u64, Seq<char>>,
    messages: Seq<PeerView>,
)
    requires
        forall|at: int| 0 <= at < messages.len() ==> addresses.contains_key((#[trigger] messages[at]).to),
    ensures
        addressed(from, addresses, messages).len() == messages.len(),
        forall|at: int|
            0 <= at < messages.len() ==> #[trigger] addressed(from, addresses, messages)[at] == (
                addresses[messages[at].to],
                signed(from, messages[at].payload),
            ),
    decreases messages.len(),
{
    if messages.len() > 0 {
        let front = messages.drop_last();
        assert forall|at: int| 0 <= at < front.len() implies addresses.contains_key(
            (#[trigger] front[at]).to,
        ) by {
            assert(front[at] == messages[at]);
        }
        law_no_message_is_lost_on_the_way_out(from, addresses, front);
        assert(addresses.contains_key(messages[messages.len() - 1].to));
        assert forall|at: int| 0 <= at < messages.len() implies #[trigger] addressed(
            from,
            addresses,
            messages,
        )[at] == (addresses[messages[at].to], signed(from, messages[at].payload)) by {
            if at < front.len() {
                assert(front[at] == messages[at]);
                assert(addressed(from, addresses, front)[at] == addressed(
                    from,
                    addresses,
                    messages,
                )[at]);
            }
        }
    }
}

/// The address of another node is its host, a colon and its port for peers; where no host is given,
/// it is on the local host. If a node is listed more than once, the last time counts. Nobody else
/// has an address.
pub proof fn law_addresses_are_hosts_and_ports(
    node_id: u64,
    all_nodes: Seq<NodeConfig>,
    hosts: Seq<Option<String>>,
    at: int,
)
    requires
        0 <= at < all_nodes.len(),
        all_nodes[at].id != node_id,
        forall|later: int| at < later < all_nodes.len() ==> (#[trigger] all_nodes[later]).id
            != all_nodes[at].id,
    ensures
        ({
            let addresses = addresses_of_others(node_id, all_nodes, hosts);
            let host = match hosts[at] {
                Some(host) => host@,
                None => "127.0.0.1"@,
            };
            &&& addresses.contains_key(all_nodes[at].id)
            &&& addresses[all_nodes[at].id] == host + seq![':'] + text::decimal(
                all_nodes[at].peer_port as nat,
            )
        }),
    decreases all_nodes.len(),
{
    reveal_strlit(":");
    assert(":"@ =~= seq![':']);
    let front = all_nodes.drop_last();
    if at < front.len() {
        assert forall|later: int| at < later < front.len() implies (#[trigger] front[later]).id
            != front[at].id by {
            assert(front[later] == all_nodes[later]);
        }
        law_addresses_are_hosts_and_ports(node_id, front, hosts, at);
        assert(all_nodes[all_nodes.len() - 1].id != all_nodes[at].id);
    }
}

/// Only nodes that are listed have an address.
pub proof fn law_only_listed_nodes_have_an_address(
    node_id: u64,
    all_nodes: Seq<NodeConfig>,
    hosts: Seq<Option<String>>,
    id: u64,
)
    requires
        addresses_of_others(node_id, all_nodes, hosts).contains_key(id),
    ensures
        id != node_id,
        exists|at: int| 0 <= at < all_nodes.len() && (#[trigger] all_nodes[at]).id == id,
    decreases all_nodes.len(),
{
    if all_nodes.len() > 0 {
        let front = all_nodes.drop_last();
        if addresses_of_others(node_id, front, hosts).contains_key(id) {
            law_only_listed_nodes_have_an_address(node_id, front, hosts, id);
            let at = choose|at: int| 0 <= at < front.len() && (#[trigger] front[at]).id == id;
            assert(all_nodes[at].id == id);
        } else {
            assert(all_nodes[all_nodes.len() - 1].id == id);
        }
    }
}

} // verus!
