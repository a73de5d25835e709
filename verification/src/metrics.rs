//! Metrics of a node, in the text format of Prometheus.

use crate::cluster::ClusterNode;
use crate::raft::state::{NodeRole, StateView};
use crate::text;
use crate::text::push_decimal;
use vstd::prelude::*;
use vstd::string::*;

verus! {

/// The port of the metrics of a node is this one plus the node's ID.
pub const METRICS_PORT_BASE: u16 = 9100;

/// The port on which a node serves its metrics. Of the node's ID, the lower 16 bits count.
pub fn metrics_port(node_id: u64) -> (port: u16)
    requires
        METRICS_PORT_BASE + node_id % 0x1_0000 <= u16::MAX,
    ensures
        port == METRICS_PORT_BASE + node_id % 0x1_0000,
{
    METRICS_PORT_BASE + (node_id % 0x1_0000) as u16
}

/// One gauge: what it is about, and its value on a node.
pub open spec fn gauge(
    name: Seq<char>,
    help: Seq<char>,
    node_id: u64,
    labels: Seq<char>,
    value: nat,
) -> Seq<char> {
    "# HELP raftkv_"@ + name + " "@ + help + "\n# TYPE raftkv_"@ + name + " gauge\nraftkv_"@ + name
        + "{node=\""@ + text::decimal(node_id as nat) + "\""@ + labels + "} "@ + text::decimal(
        value,
    ) + "\n"@
}

/// Append a gauge.
fn push_gauge(out: &mut String, name: &str, help: &str, node_id: u64, labels: &str, value: u64)
    ensures
        final(out)@ == old(out)@ + gauge(name@, help@, node_id, labels@, value as nat),
{
    out.append("# HELP raftkv_");
    out.append(name);
    out.append(" ");
    out.append(help);
    out.append("\n# TYPE raftkv_");
    out.append(name);
    out.append(" gauge\nraftkv_");
    out.append(name);
    out.append("{node=\"");
    push_decimal(out, node_id);
    out.append("\"");
    out.append(labels);
    out.append("} ");
    push_decimal(out, value);
    out.append("\n");
    assert(out@ =~= old(out)@ + gauge(name@, help@, node_id, labels@, value as nat));
}

/// A role as a number.
pub open spec fn role_number(role: NodeRole) -> nat {
    match role {
        NodeRole::Follower => 0,
        NodeRole::Candidate => 1,
        NodeRole::Leader => 2,
    }
}

/// A role as a label.
pub open spec fn role_label(role: NodeRole) -> Seq<char> {
    match role {
        NodeRole::Follower => ",role=\"follower\""@,
        NodeRole::Candidate => ",role=\"candidate\""@,
        NodeRole::Leader => ",role=\"leader\""@,
    }
}

/// The metrics of a node: the leader is among them if the node knows one.
pub open spec fn metrics_text(state: StateView, node_id: u64) -> Seq<char> {
    let none = Seq::<char>::empty();
    gauge("current_term"@, "The current Raft term"@, node_id, none, state.current_term as nat)
        + gauge(
        "role"@,
        "Current role (0=follower, 1=candidate, 2=leader)"@,
        node_id,
        role_label(state.role),
        role_number(state.role),
    ) + gauge(
        "commit_index"@,
        "The highest committed log index"@,
        node_id,
        none,
        state.commit_index as nat,
    ) + gauge(
        "last_applied"@,
        "The highest applied log index"@,
        node_id,
        none,
        state.last_applied as nat,
    ) + gauge(
        "log_length"@,
        "Number of entries in the Raft log"@,
        node_id,
        none,
        state.last_index() as nat,
    ) + gauge(
        "is_leader"@,
        "Whether this node is the leader (1=yes, 0=no)"@,
        node_id,
        none,
        if state.role == NodeRole::Leader {
            1
        } else {
            0
        },
    ) + match state.leader_id {
        Some(leader_id) => gauge(
            "known_leader"@,
            "The node ID of the known leader"@,
            node_id,
            none,
            leader_id as nat,
        ),
        None => none,
    }
}

/// The metrics of a node.
pub fn generate_metrics(node: &ClusterNode, node_id: u64) -> (metrics: String)
    requires
        node.wf(),
    ensures
        metrics@ == metrics_text(node@.raft.state, node_id),
{
    let state = &node.raft.state;
    let role_number: u64 = match state.role {
        NodeRole::Follower => 0,
        NodeRole::Candidate => 1,
        NodeRole::Leader => 2,
    };
    let role_label: &str = match state.role {
        NodeRole::Follower => ",role=\"follower\"",
        NodeRole::Candidate => ",role=\"candidate\"",
        NodeRole::Leader => ",role=\"leader\"",
    };
    let is_leader: u64 = if state.role == NodeRole::Leader { 1 } else { 0 };
    let mut out: String = String::new();
    proof {
        reveal_strlit("");
        assert(""@ =~= Seq::empty());
    }
    push_gauge(
        &mut out,
        "current_term",
        "The current Raft term",
        node_id,
        "",
        state.current_term,
    );
    push_gauge(
        &mut out,
        "role",
        "Current role (0=follower, 1=candidate, 2=leader)",
        node_id,
        role_label,
        role_number,
    );
    push_gauge(
        &mut out,
        "commit_index",
        "The highest committed log index",
        node_id,
        "",
        state.commit_index as u64,
    );
    push_gauge(
        &mut out,
        "last_applied",
        "The highest applied log index",
        node_id,
        "",
        state.last_applied as u64,
    );
    push_gauge(
        &mut out,
        "log_length",
        "Number of entries in the Raft log",
        node_id,
        "",
        state.log.last_index() as u64,
    );
    push_gauge(
        &mut out,
        "is_leader",
        "Whether this node is the leader (1=yes, 0=no)",
        node_id,
        "",
        is_leader,
    );
    if let Some(leader_id) = state.leader_id {
        push_gauge(
            &mut out,
            "known_leader",
            "The node ID of the known leader",
            node_id,
            "",
            leader_id,
        );
    }
    assert(out@ =~= metrics_text(node@.raft.state, node_id));
    out
}

/// An HTTP response with a text as its body. The header says how many bytes the body has.
pub open spec fn http_text(body: Seq<char>) -> Seq<char> {
    "HTTP/1.1 200 OK\r\nContent-Type: text/plain; charset=utf-8\r\nContent-Length: "@
        + text::decimal(text::byte_len(body)) + "\r\n\r\n"@ + body
}

/// An HTTP response with a text as its body.
pub fn http_response(body: &str) -> (response: String)
    ensures
        response@ == http_text(body@),
{
    let bytes: usize = body.as_bytes().len();
    let mut response: String = String::new();
    response.append(
        "HTTP/1.1 200 OK\r\nContent-Type: text/plain; charset=utf-8\r\nContent-Length: ",
    );
    push_decimal(&mut response, bytes as u64);
    response.append("\r\n\r\n");
    response.append(body);
    assert(response@ =~= http_text(body@));
    response
}

/// A gauge is three lines: what it is about, that it is a gauge, and its value with the node that it
/// is of.
pub proof fn law_gauges_are_three_lines(
    name: Seq<char>,
    help: Seq<char>,
    node_id: u64,
    labels: Seq<char>,
    value: nat,
)
    ensures
        gauge(name, help, node_id, labels, value) == ("# HELP raftkv_"@ + name + " "@ + help
            + "\n"@) + ("# TYPE raftkv_"@ + name + " gauge\n"@) + ("raftkv_"@ + name + "{node=\""@
            + text::decimal(node_id as nat) + "\""@ + labels + "} "@ + text::decimal(value)
            + "\n"@),
{
    reveal_strlit("\n");
    reveal_strlit("# TYPE raftkv_");
    reveal_strlit("\n# TYPE raftkv_");
    reveal_strlit(" gauge\n");
    reveal_strlit("raftkv_");
    reveal_strlit(" gauge\nraftkv_");
    assert("\n# TYPE raftkv_"@ =~= "\n"@ + "# TYPE raftkv_"@);
    assert(" gauge\nraftkv_"@ =~= " gauge\n"@ + "raftkv_"@);
    assert(gauge(name, help, node_id, labels, value) =~= ("# HELP raftkv_"@ + name + " "@ + help
        + "\n"@) + ("# TYPE raftkv_"@ + name + " gauge\n"@) + ("raftkv_"@ + name + "{node=\""@
        + text::decimal(node_id as nat) + "\""@ + labels + "} "@ + text::decimal(value) + "\n"@));
}

/// The metrics show the state of the node as it is: its term, its role as a number and a word, how
/// far it has committed and applied, how many real entries its log has, whether it leads, and who
/// leads if it knows.
pub proof fn law_metrics_show_the_state(state: StateView, node_id: u64)
    requires
        state.wf(),
    ensures
        ({
            let none = Seq::<char>::empty();
            let (role, label, leads) = match state.role {
                NodeRole::Follower => (0nat, ",role=\"follower\""@, 0nat),
                NodeRole::Candidate => (1nat, ",role=\"candidate\""@, 0nat),
                NodeRole::Leader => (2nat, ",role=\"leader\""@, 1nat),
            };
            let term = gauge(
                "current_term"@,
                "The current Raft term"@,
                node_id,
                none,
                state.current_term as nat,
            );
            let roles = gauge(
                "role"@,
                "Current role (0=follower, 1=candidate, 2=leader)"@,
                node_id,
                label,
                role,
            );
            let committed = gauge(
                "commit_index"@,
                "The highest committed log index"@,
                node_id,
                none,
                state.commit_index as nat,
            );
            let applied = gauge(
                "last_applied"@,
                "The highest applied log index"@,
                node_id,
                none,
                state.last_applied as nat,
            );
            let length = gauge(
                "log_length"@,
                "Number of entries in the Raft log"@,
                node_id,
                none,
                (state.log.len() - 1) as nat,
            );
            let is_leader = gauge(
                "is_leader"@,
                "Whether this node is the leader (1=yes, 0=no)"@,
                node_id,
                none,
                leads,
            );
            let all = term + roles + committed + applied + length + is_leader;
            &&& state.leader_id is None ==> metrics_text(state, node_id) == all
            &&& state.leader_id matches Some(leader) ==> metrics_text(state, node_id) == all
                + gauge(
                "known_leader"@,
                "The node ID of the known leader"@,
                node_id,
                none,
                leader as nat,
            )
        }),
{
    if state.leader_id is None {
        let text = metrics_text(state, node_id);
        assert(text + Seq::<char>::empty() =~= text);
    }
}

/// The header of a response says how many bytes its body has, and the body follows the empty line.
pub proof fn law_responses_announce_the_size_of_their_body(body: Seq<char>)
    ensures
        http_text(body)
            == "HTTP/1.1 200 OK\r\nContent-Type: text/plain; charset=utf-8\r\nContent-Length: "@
            + text::decimal(vstd::utf8::encode_utf8(body).len()) + seq!['\r', '\n', '\r', '\n']
            + body,
{
    reveal_strlit("\r\n\r\n");
    assert("\r\n\r\n"@ =~= seq!['\r', '\n', '\r', '\n']);
}

/// Metrics are served from port 9100 on, by the ID of the node.
pub proof fn law_metrics_have_ports_of_their_own()
    ensures
        METRICS_PORT_BASE == 9100,
{
}

} // verus!
