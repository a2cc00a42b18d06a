//! What the gateway shows of the nodes that it knows.

use vstd::prelude::*;
use vstd::string::*;

use crate::gateway::queries::{query_views, QueryView, QueryWindows};
use crate::gateway::state::GatewayState;
use crate::gateway::windows::{NodeView, NodeWindow};

verus! {

pub const NANOS_PER_SECOND: u64 = 1_000_000_000;

/// The window of one node, as shown.
#[derive(Debug)]
pub struct NodeRow {
    pub node: String,
    pub window_start_nanos: u64,
    pub window_end_nanos: u64,
    /// Whole seconds since the node last pushed.
    pub age_seconds: u64,
    /// Under which its sketches are held.
    pub token: u64,
}

/// The content of a [`NodeRow`].
pub ghost struct NodeRowView {
    pub node: Seq<char>,
    pub window_start_nanos: u64,
    pub window_end_nanos: u64,
    pub age_seconds: int,
    pub token: u64,
}

impl View for NodeRow {
    type V = NodeRowView;

    open spec fn view(&self) -> NodeRowView {
        NodeRowView {
            node: self.node@,
            window_start_nanos: self.window_start_nanos,
            window_end_nanos: self.window_end_nanos,
            age_seconds: self.age_seconds as int,
            token: self.token,
        }
    }
}

/// The nodes of one query, as shown.
#[derive(Debug)]
pub struct QueryNodes {
    pub query: String,
    pub nodes: Vec<NodeRow>,
}

/// The content of [`QueryNodes`].
#[verifier::ext_equal]
pub ghost struct QueryNodesView {
    pub query: Seq<char>,
    pub nodes: Seq<NodeRowView>,
}

impl View for QueryNodes {
    type V = QueryNodesView;

    open spec fn view(&self) -> QueryNodesView {
        QueryNodesView {
            query: self.query@,
            nodes: self.nodes@.map_values(|n: NodeRow| n@),
        }
    }
}

/// Whole seconds from `received` to `now`; none if the clock has gone back.
pub open spec fn age(received: u64, now: u64) -> int {
    if now >= received {
        (now - received) / NANOS_PER_SECOND as int
    } else {
        0
    }
}

/// How a node is shown.
pub open spec fn node_shown(w: NodeView, now: u64) -> NodeRowView {
    NodeRowView {
        node: w.node,
        window_start_nanos: w.start,
        window_end_nanos: w.end,
        age_seconds: age(w.received, now),
        token: w.token,
    }
}

/// How a query is shown.
pub open spec fn query_shown(q: QueryView, now: u64) -> QueryNodesView {
    QueryNodesView { query: q.query, nodes: q.nodes.map_values(|w: NodeView| node_shown(w, now)) }
}

fn show_node(w: &NodeWindow, now: u64) -> (r: NodeRow)
    ensures
        r@ == node_shown(w@, now),
{
    let age_seconds: u64 = if now >= w.received {
        (now - w.received) / NANOS_PER_SECOND
    } else {
        0
    };
    NodeRow {
        node: w.node.as_str().to_owned(),
        window_start_nanos: w.start,
        window_end_nanos: w.end,
        age_seconds,
        token: w.token,
    }
}

fn show_query(q: &QueryWindows, now: u64) -> (r: QueryNodes)
    ensures
        r@ == query_shown(q@, now),
{
    let mut nodes: Vec<NodeRow> = Vec::new();
    for i in 0..q.nodes.len()
        invariant
            nodes@.len() == i,
            forall|k: int| 0 <= k < i ==> (#[trigger] nodes@[k])@ == node_shown(q.nodes@[k]@, now),
    {
        nodes.push(show_node(&q.nodes[i], now));
    }
    let r = QueryNodes { query: q.query.as_str().to_owned(), nodes };
    proof {
        assert(r@.nodes =~= query_shown(q@, now).nodes);
    }
    r
}

impl GatewayState {
    /// The nodes that are known, by query.
    pub fn nodes(&self, now: u64) -> (r: Vec<QueryNodes>)
        ensures
            r@.map_values(|q: QueryNodes| q@) == self.windows().map_values(
                |q: QueryView| query_shown(q, now),
            ),
    {
        let data = self.query_windows();
        let mut out: Vec<QueryNodes> = Vec::new();
        for i in 0..data.len()
            invariant
                out@.len() == i,
                forall|k: int|
                    0 <= k < i ==> (#[trigger] out@[k])@ == query_shown(data@[k]@, now),
        {
            out.push(show_query(&data[i], now));
        }
        proof {
            let shown = self.windows().map_values(|q: QueryView| query_shown(q, now));
            assert(self.windows().len() == data@.len());
            assert forall|k: int| 0 <= k < out@.len() implies (#[trigger] out@[k])@ == shown[k] by {
                assert(self.windows()[k] == query_views(data@)[k]);
            }
            assert(out@.map_values(|q: QueryNodes| q@) =~= shown);
        }
        out
    }
}

} // verus!
