//! The gateway's state: the newest window of every query and node, which
//! nodes are admitted, and the counters.

use vstd::prelude::*;
use vstd::seq_lib::*;
use vstd::string::*;

use crate::gateway::queries::{
    all_stored, data_stored, empty_query, evict, evicted, eviction_rebuilds, in_query_order,
    lemma_evicted_in_order, lemma_stored_in_order, marked, query_evicted, is_sound,
    law_eviction_keeps_queries_sound, law_storing_keeps_queries_sound, lemma_members_upto,
    members_upto, query_stored, query_views, rebuild_count, rebuild_views, store, store_rebuilds,
    window_of, Incoming, QueryView, QueryWindows, Rebuild,
};
use crate::gateway::windows::{
    alive, has_node, in_node_order, law_forgetting_is_exact, law_storing_keeps_node_order, members,
    shard_members, stored, NodeView, NodeWindow, MERGE_CACHE_SHARDS,
};
use crate::metrics::plus;
use crate::names::{add_name, ascending, law_sorted_names, lemma_text_irreflexive, sorted_names};
use crate::text::{debug_text, dec, push_decimal, quoted, same_text, text_before, texts};

verus! {

// ---------------------------------------------------------------------------
// What a push comes to
// ---------------------------------------------------------------------------

/// What became of the snapshots that a batch holds for a query.
#[derive(Debug)]
pub enum PushOutcome {
    /// The query is not known here.
    Unknown,
    /// The snapshots do not fit together or not to the plan.
    Invalid(String),
    /// A window whose sketches are held under a token.
    Valid { start: u64, end: u64, token: u64 },
}

/// One query of a batch.
#[derive(Debug)]
pub struct QueryPush {
    pub query: String,
    pub outcome: PushOutcome,
}

/// What became of a batch.
#[derive(Debug)]
pub struct ApplyResult {
    /// Queries whose window was taken.
    pub accepted: usize,
    /// Why each other query was refused.
    pub rejected: Vec<String>,
}

/// A push of a query that is not configured is unknown, whatever its
/// snapshots are.
pub open spec fn screened(push: QueryPush, names: Seq<Seq<char>>) -> QueryPush {
    if names.contains(push.query@) {
        push
    } else {
        QueryPush { query: push.query, outcome: PushOutcome::Unknown }
    }
}

pub open spec fn all_screened(pushes: Seq<QueryPush>, names: Seq<Seq<char>>) -> Seq<QueryPush> {
    pushes.map_values(|p: QueryPush| screened(p, names))
}

/// How many pushes are of configured queries.
pub open spec fn named_count(pushes: Seq<QueryPush>, names: Seq<Seq<char>>) -> nat
    decreases pushes.len(),
{
    if pushes.len() == 0 {
        0
    } else {
        named_count(pushes.drop_last(), names) + if names.contains(pushes.last().query@) {
            1nat
        } else {
            0nat
        }
    }
}

/// Every query that has windows is configured.
pub open spec fn only_named(data: Seq<QueryView>, names: Seq<Seq<char>>) -> bool {
    forall|i: int| 0 <= i < data.len() ==> names.contains((#[trigger] data[i]).query)
}

/// The windows that are valid.
pub open spec fn valid_of(pushes: Seq<QueryPush>) -> Seq<Incoming>
    decreases pushes.len(),
{
    if pushes.len() == 0 {
        Seq::empty()
    } else {
        let before = valid_of(pushes.drop_last());
        match pushes.last().outcome {
            PushOutcome::Valid { start, end, token } => before.push(
                Incoming { query: pushes.last().query@, start, end, token },
            ),
            _ => before,
        }
    }
}

/// The refusals of queries that are not valid.
pub open spec fn refusals(pushes: Seq<QueryPush>, node: Seq<char>) -> Seq<Seq<char>>
    decreases pushes.len(),
{
    if pushes.len() == 0 {
        Seq::empty()
    } else {
        let before = refusals(pushes.drop_last(), node);
        let query = pushes.last().query@;
        match pushes.last().outcome {
            PushOutcome::Unknown => before.push(
                "query "@ + debug_text(query) + " is not configured on this gateway"@,
            ),
            PushOutcome::Invalid(e) => before.push(
                "query "@ + debug_text(query) + " from node "@ + debug_text(node) + ": "@ + e@,
            ),
            PushOutcome::Valid { .. } => before,
        }
    }
}

/// The refusals of valid windows of a node that is not admitted.
pub open spec fn full_refusals(valid: Seq<Incoming>, node: Seq<char>, max_nodes: nat) -> Seq<
    Seq<char>,
>
    decreases valid.len(),
{
    if valid.len() == 0 {
        Seq::empty()
    } else {
        full_refusals(valid.drop_last(), node, max_nodes).push(
            "query "@ + debug_text(valid.last().query) + " from node "@ + debug_text(node)
                + ": gateway node capacity "@ + dec(max_nodes) + " is full"@,
        )
    }
}

// ---------------------------------------------------------------------------
// Which nodes are known
// ---------------------------------------------------------------------------

/// Whether a node has a window of any query.
pub open spec fn knows(data: Seq<QueryView>, node: Seq<char>) -> bool {
    exists|i: int| 0 <= i < data.len() && has_node((#[trigger] data[i]).nodes, node)
}

pub open spec fn node_names(nodes: Seq<NodeView>) -> Seq<Seq<char>> {
    nodes.map_values(|w: NodeView| w.node)
}

/// The names of all nodes, query by query.
pub open spec fn all_node_names(data: Seq<QueryView>) -> Seq<Seq<char>>
    decreases data.len(),
{
    if data.len() == 0 {
        Seq::empty()
    } else {
        all_node_names(data.drop_last()) + node_names(data.last().nodes)
    }
}

/// How many different nodes have windows.
pub open spec fn node_count(data: Seq<QueryView>) -> nat {
    sorted_names(all_node_names(data)).len()
}

fn count_nodes(data: &Vec<QueryWindows>) -> (r: usize)
    ensures
        r == node_count(query_views(data@)),
{
    let ghost all = query_views(data@);
    let mut names: Vec<String> = Vec::new();
    let mut i: usize = 0;
    assert(all.take(0) =~= Seq::<QueryView>::empty());
    assert(texts(names@) =~= sorted_names(all_node_names(all.take(0))));
    while i < data.len()
        invariant
            i <= data@.len(),
            all == query_views(data@),
            texts(names@) == sorted_names(all_node_names(all.take(i as int))),
        decreases data@.len() - i,
    {
        let q = &data[i];
        let ghost before = all_node_names(all.take(i as int));
        let ghost more = node_names(q@.nodes);
        assert(all.take(i + 1).drop_last() =~= all.take(i as int));
        assert(all.take(i + 1).last() == q@);
        let mut k: usize = 0;
        assert(before + more.take(0) =~= before);
        while k < q.nodes.len()
            invariant
                k <= q.nodes@.len(),
                more == node_names(q@.nodes),
                texts(names@) == sorted_names(before + more.take(k as int)),
            decreases q.nodes@.len() - k,
        {
            proof {
                assert(more.len() == q.nodes@.len());
                let next = before + more.take(k + 1);
                assert(next.drop_last() =~= before + more.take(k as int));
                assert(next.last() == more[k as int]);
            }
            add_name(&mut names, q.nodes[k].node.as_str());
            k += 1;
        }
        assert(more.take(k as int) =~= more);
        i += 1;
    }
    assert(all.take(i as int) =~= all);
    assert(names@.len() == texts(names@).len());
    names.len()
}

fn is_known(data: &Vec<QueryWindows>, node: &str) -> (r: bool)
    ensures
        r == knows(query_views(data@), node@),
{
    let ghost all = query_views(data@);
    let mut i: usize = 0;
    while i < data.len()
        invariant
            i <= data@.len(),
            all == query_views(data@),
            forall|j: int| 0 <= j < i ==> !has_node((#[trigger] all[j]).nodes, node@),
        decreases data@.len() - i,
    {
        let q = &data[i];
        assert(all[i as int] == q@);
        let mut k: usize = 0;
        while k < q.nodes.len()
            invariant
                i < data@.len(),
                k <= q.nodes@.len(),
                all == query_views(data@),
                all[i as int] == q@,
                forall|j: int| 0 <= j < k ==> (#[trigger] q@.nodes[j]).node != node@,
            decreases q.nodes@.len() - k,
        {
            if same_text(q.nodes[k].node.as_str(), node) {
                assert(q@.nodes[k as int].node == node@);
                assert(has_node(all[i as int].nodes, node@));
                return true;
            }
            k += 1;
        }
        i += 1;
    }
    false
}

// ---------------------------------------------------------------------------
// The state
// ---------------------------------------------------------------------------

/// What the gateway has counted since it started.
#[derive(Debug, Clone, Copy, PartialEq, Eq, Structural)]
pub struct GatewayCounters {
    pub pushes_total: u64,
    pub snapshots_accepted: u64,
    pub snapshots_rejected: u64,
    pub node_admission_rejections: u64,
    pub body_budget_rejections: u64,
    pub merge_cache_shard_rebuilds: u64,
}

/// The gateway's state. Times are readings of one clock, in any unit.
#[derive(Debug)]
pub struct GatewayState {
    /// Names of the queries that are merged, in the order of their plans.
    queries: Vec<String>,
    max_nodes: usize,
    stale_after: u64,
    data: Vec<QueryWindows>,
    counters: GatewayCounters,
}

/// What a push changes.
pub ghost struct Applied {
    pub data: Seq<QueryView>,
    pub rebuilds: Seq<(Seq<char>, Seq<bool>)>,
    pub accepted: nat,
    pub rejected: Seq<Seq<char>>,
    /// Whether the node was turned away for want of room.
    pub turned_away: bool,
}

/// What a push from `node` comes to. Without a valid window nothing changes.
/// Otherwise stale nodes are forgotten first; then a new node is turned away
/// if there is no room for it, and the windows of any other are stored.
pub open spec fn applied(
    data: Seq<QueryView>,
    max_nodes: nat,
    cutoff: u64,
    node: Seq<char>,
    pushes: Seq<QueryPush>,
    now: u64,
) -> Applied {
    let valid = valid_of(pushes);
    let refused = refusals(pushes, node);
    let left = evicted(data, now, cutoff);
    let lost = eviction_rebuilds(data, now, cutoff);
    if valid.len() == 0 {
        Applied {
            data,
            rebuilds: Seq::empty(),
            accepted: 0,
            rejected: refused,
            turned_away: false,
        }
    } else if !knows(left, node) && node_count(left) >= max_nodes {
        Applied {
            data: left,
            rebuilds: lost,
            accepted: 0,
            rejected: refused + full_refusals(valid, node, max_nodes),
            turned_away: true,
        }
    } else {
        Applied {
            data: all_stored(left, node, now, valid),
            rebuilds: lost + store_rebuilds(left, node, now, valid),
            accepted: valid.len(),
            rejected: refused,
            turned_away: false,
        }
    }
}

fn add_count(c: u64, n: u64, Ghost(exact): Ghost<nat>) -> (r: u64)
    requires
        n as int == exact as int % 0x1_0000_0000_0000_0000,
    ensures
        r == plus(c, exact),
{
    proof {
        vstd::arithmetic::div_mod::lemma_add_mod_noop(
            c as int,
            exact as int,
            0x1_0000_0000_0000_0000,
        );
    }
    c.wrapping_add(n)
}

/// The counters after a push.
pub open spec fn counted(c: GatewayCounters, a: Applied) -> GatewayCounters {
    GatewayCounters {
        pushes_total: plus(c.pushes_total, 1),
        snapshots_accepted: plus(c.snapshots_accepted, a.accepted),
        snapshots_rejected: plus(c.snapshots_rejected, a.rejected.len()),
        node_admission_rejections: plus(
            c.node_admission_rejections,
            if a.turned_away {
                1
            } else {
                0
            },
        ),
        body_budget_rejections: c.body_budget_rejections,
        merge_cache_shard_rebuilds: plus(c.merge_cache_shard_rebuilds, rebuild_count(a.rebuilds)),
    }
}

fn count_marked(shards: &Vec<bool>) -> (r: usize)
    ensures
        r == marked(shards@),
        r <= shards@.len(),
{
    let mut n: usize = 0;
    let mut i: usize = 0;
    assert(shards@.take(0) =~= Seq::<bool>::empty());
    while i < shards.len()
        invariant
            i <= shards@.len(),
            n <= i,
            n == marked(shards@.take(i as int)),
        decreases shards@.len() - i,
    {
        assert(shards@.take(i + 1).drop_last() =~= shards@.take(i as int));
        if shards[i] {
            n += 1;
        }
        i += 1;
    }
    assert(shards@.take(i as int) =~= shards@);
    n
}

/// The count of summaries to make anew, as a counter takes it.
fn count_rebuilds(v: &Vec<Rebuild>) -> (r: u64)
    ensures
        r as int == rebuild_count(rebuild_views(v@)) as int % 0x1_0000_0000_0000_0000,
{
    let ghost all = rebuild_views(v@);
    let mut n: u64 = 0;
    let mut i: usize = 0;
    assert(all.take(0) =~= Seq::<(Seq<char>, Seq<bool>)>::empty());
    while i < v.len()
        invariant
            i <= v@.len(),
            all == rebuild_views(v@),
            n as int == rebuild_count(all.take(i as int)) as int % 0x1_0000_0000_0000_0000,
        decreases v@.len() - i,
    {
        assert(all.take(i + 1).drop_last() =~= all.take(i as int));
        let more: u64 = count_marked(&v[i].shards) as u64;
        proof {
            vstd::arithmetic::div_mod::lemma_add_mod_noop(
                rebuild_count(all.take(i as int)) as int,
                more as int,
                0x1_0000_0000_0000_0000,
            );
        }
        n = n.wrapping_add(more);
        i += 1;
    }
    assert(all.take(i as int) =~= all);
    n
}

/// The queries whose names are configured.
pub open spec fn lists(names: Seq<String>, name: Seq<char>) -> bool {
    exists|i: int| 0 <= i < names.len() && (#[trigger] names[i])@ == name
}

/// What a query's windows merge to.
#[derive(Debug)]
pub struct MergedQuery {
    pub query_name: String,
    pub nodes_known: usize,
    pub nodes_merged: usize,
    pub window_end_nanos: u64,
}

/// The content of a [`MergedQuery`].
pub ghost struct MergedView {
    pub query_name: Seq<char>,
    pub nodes_known: nat,
    pub nodes_merged: nat,
    pub window_end_nanos: u64,
}

impl View for MergedQuery {
    type V = MergedView;

    open spec fn view(&self) -> MergedView {
        MergedView {
            query_name: self.query_name@,
            nodes_known: self.nodes_known as nat,
            nodes_merged: self.nodes_merged as nat,
            window_end_nanos: self.window_end_nanos,
        }
    }
}

pub open spec fn merged_views(v: Seq<MergedQuery>) -> Seq<MergedView> {
    v.map_values(|m: MergedQuery| m@)
}

/// The sum of counts.
pub open spec fn sum(v: Seq<usize>) -> nat
    decreases v.len(),
{
    if v.len() == 0 {
        0
    } else {
        sum(v.drop_last()) + v.last() as nat
    }
}

/// The windows of a query, if it has any.
pub open spec fn query_of(data: Seq<QueryView>, query: Seq<char>) -> Option<QueryView>
    decreases data.len(),
{
    if data.len() == 0 {
        None
    } else if data[0].query == query {
        Some(data[0])
    } else {
        query_of(data.drop_first(), query)
    }
}

/// What the windows of the named queries merge to. A query without windows is
/// left out.
pub open spec fn merges(data: Seq<QueryView>, queries: Seq<Seq<char>>) -> Seq<MergedView>
    decreases queries.len(),
{
    if queries.len() == 0 {
        Seq::empty()
    } else {
        let before = merges(data, queries.drop_last());
        match query_of(data, queries.last()) {
            Some(q) => match q.target {
                Some(target) => before.push(
                    MergedView {
                        query_name: queries.last(),
                        nodes_known: q.nodes.len(),
                        nodes_merged: sum(q.shard_nodes),
                        window_end_nanos: target.1,
                    },
                ),
                None => before,
            },
            None => before,
        }
    }
}

fn find_query(data: &Vec<QueryWindows>, query: &str) -> (r: Option<usize>)
    ensures
        match query_of(query_views(data@), query@) {
            Some(q) => r is Some && r->0 < data@.len() && data@[r->0 as int]@ == q,
            None => r is None,
        },
{
    let ghost all = query_views(data@);
    let mut i: usize = 0;
    assert(all.skip(0) =~= all);
    while i < data.len()
        invariant
            i <= data@.len(),
            all == query_views(data@),
            query_of(all.skip(i as int), query@) == query_of(all, query@),
        decreases data@.len() - i,
    {
        assert(all.skip(i as int)[0] == data@[i as int]@);
        if same_text(data[i].query.as_str(), query) {
            return Some(i);
        }
        assert(all.skip(i as int).drop_first() =~= all.skip(i + 1));
        i += 1;
    }
    None
}

fn sum_counts(v: &Vec<usize>) -> (r: usize)
    requires
        sum(v@) <= usize::MAX,
    ensures
        r == sum(v@),
{
    let mut n: usize = 0;
    let mut i: usize = 0;
    assert(v@.take(0) =~= Seq::<usize>::empty());
    while i < v.len()
        invariant
            i <= v@.len(),
            sum(v@) <= usize::MAX,
            n == sum(v@.take(i as int)),
        decreases v@.len() - i,
    {
        assert(v@.take(i + 1).drop_last() =~= v@.take(i as int));
        proof {
            lemma_sum_grows(v@, i + 1);
        }
        n = n + v[i];
        i += 1;
    }
    assert(v@.take(i as int) =~= v@);
    n
}

proof fn lemma_sum_grows(v: Seq<usize>, n: int)
    requires
        0 <= n <= v.len(),
    ensures
        sum(v.take(n)) <= sum(v),
    decreases v.len(),
{
    if n < v.len() {
        lemma_sum_grows(v.drop_last(), n);
        assert(v.drop_last().take(n) =~= v.take(n));
    } else {
        assert(v.take(n) =~= v);
    }
}

// ---------------------------------------------------------------------------
// The nodes that are known
// ---------------------------------------------------------------------------

pub proof fn lemma_all_node_names(data: Seq<QueryView>, n: Seq<char>)
    ensures
        all_node_names(data).contains(n) <==> knows(data, n),
    decreases data.len(),
{
    if data.len() > 0 {
        let head = data.drop_last();
        let last = data[data.len() - 1];
        lemma_all_node_names(head, n);
        let a = all_node_names(head);
        let b = node_names(last.nodes);
        let all = all_node_names(data);
        if all.contains(n) {
            let i = choose|i: int| 0 <= i < all.len() && all[i] == n;
            if i < a.len() {
                assert(a[i] == n);
                assert(a.contains(n));
                let k = choose|k: int| 0 <= k < head.len() && has_node(
                    (#[trigger] head[k]).nodes,
                    n,
                );
                assert(data[k] == head[k]);
            } else {
                assert(b[i - a.len()] == n);
                assert(last.nodes[i - a.len()].node == n);
                assert(has_node(data[data.len() - 1].nodes, n));
            }
        }
        if knows(data, n) {
            let k = choose|k: int| 0 <= k < data.len() && has_node((#[trigger] data[k]).nodes, n);
            if k < head.len() {
                assert(head[k] == data[k]);
                assert(knows(head, n));
                let i = choose|i: int| 0 <= i < a.len() && a[i] == n;
                assert(all[i] == n);
            } else {
                let j = choose|j: int|
                    0 <= j < last.nodes.len() && (#[trigger] last.nodes[j]).node == n;
                assert(b[j] == n);
                assert(all[a.len() + j] == n);
            }
        }
    } else {
        assert(all_node_names(data) =~= Seq::<Seq<char>>::empty());
    }
}

/// Names strictly ascend, so no two are equal.
pub proof fn lemma_ascending_distinct(names: Seq<Seq<char>>)
    requires
        ascending(names),
    ensures
        names.no_duplicates(),
{
    assert forall|i: int, j: int| 0 <= i < names.len() && 0 <= j < names.len() && i != j implies names[i]
        != names[j] by {
        if i < j {
            lemma_text_irreflexive(names[i]);
        } else {
            lemma_text_irreflexive(names[j]);
        }
    }
}

/// Where every known node is known there too, or is the one named, there is at
/// most one node more.
proof fn lemma_node_count(a: Seq<QueryView>, b: Seq<QueryView>, extra: Option<Seq<char>>)
    requires
        forall|n: Seq<char>| #[trigger] knows(a, n) ==> knows(b, n) || extra == Some(n),
    ensures
        extra is None ==> node_count(a) <= node_count(b),
        node_count(a) <= node_count(b) + 1,
        extra is Some && knows(b, extra->0) ==> node_count(a) <= node_count(b),
{
    let x = sorted_names(all_node_names(a));
    let y = sorted_names(all_node_names(b));
    law_sorted_names(all_node_names(a));
    law_sorted_names(all_node_names(b));
    lemma_ascending_distinct(x);
    lemma_ascending_distinct(y);
    x.unique_seq_to_set();
    y.unique_seq_to_set();
    let s = x.to_set();
    let t = y.to_set();
    seq_to_set_is_finite(x);
    seq_to_set_is_finite(y);
    let bigger = match extra {
        Some(n) => t.insert(n),
        None => t,
    };
    assert forall|n: Seq<char>| s.contains(n) implies bigger.contains(n) by {
        assert(x.contains(n));
        lemma_all_node_names(a, n);
        lemma_all_node_names(b, n);
        assert(knows(a, n));
        if knows(b, n) {
            assert(y.contains(n));
        }
    }
    vstd::set_lib::lemma_len_subset(s, bigger);
    if extra is Some && knows(b, extra->0) {
        lemma_all_node_names(b, extra->0);
        assert(y.contains(extra->0));
        assert(bigger =~= t);
    }
}

/// Every query is in order.
pub open spec fn all_sound(data: Seq<QueryView>) -> bool {
    &&& in_query_order(data)
    &&& forall|i: int| 0 <= i < data.len() ==> is_sound(#[trigger] data[i])
}

proof fn lemma_evicted_sound(data: Seq<QueryView>, now: u64, cutoff: u64)
    requires
        all_sound(data),
    ensures
        all_sound(evicted(data, now, cutoff)),
        forall|n: Seq<char>| #[trigger] knows(evicted(data, now, cutoff), n) ==> knows(data, n),
    decreases data.len(),
{
    lemma_evicted_in_order(data, now, cutoff);
    let r = evicted(data, now, cutoff);
    if data.len() > 0 {
        let head = data.drop_last();
        let last = data[data.len() - 1];
        lemma_drop_last_sound(data);
        lemma_evicted_sound(head, now, cutoff);
        let h = evicted(head, now, cutoff);
        let q = query_evicted(last, now, cutoff).0;
        if q.nodes.len() > 0 {
            law_eviction_keeps_queries_sound(last, now, cutoff);
        }
        assert forall|i: int| 0 <= i < r.len() implies is_sound(#[trigger] r[i]) by {
            if i < h.len() {
                assert(r[i] == h[i]);
            }
        }
        assert forall|n: Seq<char>| #[trigger] knows(r, n) implies knows(data, n) by {
            let i = choose|i: int| 0 <= i < r.len() && has_node((#[trigger] r[i]).nodes, n);
            if i < h.len() {
                assert(r[i] == h[i]);
                assert(knows(h, n));
                let k = choose|k: int| 0 <= k < head.len() && has_node(
                    (#[trigger] head[k]).nodes,
                    n,
                );
                assert(data[k] == head[k]);
            } else {
                law_forgetting_is_exact(last.nodes, now, cutoff);
                let left = alive(last.nodes, now, cutoff);
                let nodes = q.nodes;
                if left.len() == last.nodes.len() {
                    assert(has_node(data[data.len() - 1].nodes, n));
                } else {
                    let j = choose|j: int| 0 <= j < nodes.len() && (#[trigger] nodes[j]).node == n;
                    assert(left.contains(left[j]));
                    let m = choose|m: int| 0 <= m < last.nodes.len() && last.nodes[m] == left[j];
                    assert(last.nodes[m].node == n);
                    assert(has_node(data[data.len() - 1].nodes, n));
                }
            }
        }
    }
}

proof fn lemma_drop_last_sound(data: Seq<QueryView>)
    requires
        all_sound(data),
        data.len() > 0,
    ensures
        all_sound(data.drop_last()),
{
    let head = data.drop_last();
    assert forall|i: int, j: int| 0 <= i < j < head.len() implies text_before(
        (#[trigger] head[i]).query,
        (#[trigger] head[j]).query,
    ) by {
        assert(head[i] == data[i] && head[j] == data[j]);
    }
    assert forall|i: int| 0 <= i < head.len() implies in_node_order((#[trigger] head[i]).nodes) by {
        assert(head[i] == data[i]);
    }
    assert forall|i: int| 0 <= i < head.len() implies is_sound(#[trigger] head[i]) by {
        assert(head[i] == data[i]);
    }
}

proof fn lemma_data_stored_sound(data: Seq<QueryView>, query: Seq<char>, w: NodeView)
    requires
        all_sound(data),
    ensures
        all_sound(data_stored(data, query, w).0),
        forall|n: Seq<char>| #[trigger]
            knows(data_stored(data, query, w).0, n) ==> knows(data, n) || n == w.node,
        knows(data_stored(data, query, w).0, w.node),
    decreases data.len(),
{
    lemma_stored_in_order(data, query, w);
    let r = data_stored(data, query, w).0;
    if data.len() == 0 || text_before(data.last().query, query) {
        let e = empty_query(query);
        let q = query_stored(e, w).0;
        law_storing_keeps_queries_sound(e, w);
        law_storing_keeps_node_order(e.nodes, w);
        assert(r =~= data.push(q));
        assert forall|i: int| 0 <= i < r.len() implies is_sound(#[trigger] r[i]) by {
            if i < data.len() {
                assert(r[i] == data[i]);
            }
        }
        assert(has_node(r[r.len() - 1].nodes, w.node));
        assert forall|n: Seq<char>| #[trigger] knows(r, n) implies knows(data, n) || n
            == w.node by {
            let i = choose|i: int| 0 <= i < r.len() && has_node((#[trigger] r[i]).nodes, n);
            if i < data.len() {
                assert(data[i] == r[i]);
            } else {
                assert(has_node(stored(e.nodes, w), n));
                assert(!has_node(e.nodes, n));
            }
        }
    } else if data.last().query == query {
        let last = data[data.len() - 1];
        let q = query_stored(last, w).0;
        assert(is_sound(last));
        law_storing_keeps_queries_sound(last, w);
        law_storing_keeps_node_order(last.nodes, w);
        assert forall|i: int| 0 <= i < r.len() implies is_sound(#[trigger] r[i]) by {
            if i < data.len() - 1 {
                assert(r[i] == data[i]);
            }
        }
        assert(has_node(r[r.len() - 1].nodes, w.node));
        assert forall|n: Seq<char>| #[trigger] knows(r, n) implies knows(data, n) || n
            == w.node by {
            let i = choose|i: int| 0 <= i < r.len() && has_node((#[trigger] r[i]).nodes, n);
            if i < data.len() - 1 {
                assert(data[i] == r[i]);
            } else {
                assert(has_node(stored(last.nodes, w), n));
                if n != w.node {
                    assert(has_node(data[data.len() - 1].nodes, n));
                }
            }
        }
    } else {
        let head = data.drop_last();
        let last = data[data.len() - 1];
        lemma_drop_last_sound(data);
        lemma_data_stored_sound(head, query, w);
        let h = data_stored(head, query, w).0;
        assert(r =~= h.push(last));
        assert forall|i: int| 0 <= i < r.len() implies is_sound(#[trigger] r[i]) by {
            if i < h.len() {
                assert(r[i] == h[i]);
            }
        }
        let k = choose|k: int| 0 <= k < h.len() && has_node((#[trigger] h[k]).nodes, w.node);
        assert(r[k] == h[k]);
        assert forall|n: Seq<char>| #[trigger] knows(r, n) implies knows(data, n) || n
            == w.node by {
            let i = choose|i: int| 0 <= i < r.len() && has_node((#[trigger] r[i]).nodes, n);
            if i < h.len() {
                assert(r[i] == h[i]);
                assert(knows(h, n));
                if n != w.node {
                    let m = choose|m: int| 0 <= m < head.len() && has_node(
                        (#[trigger] head[m]).nodes,
                        n,
                    );
                    assert(data[m] == head[m]);
                }
            } else {
                assert(has_node(data[data.len() - 1].nodes, n));
            }
        }
    }
}

proof fn lemma_all_stored_sound(
    data: Seq<QueryView>,
    node: Seq<char>,
    now: u64,
    valid: Seq<Incoming>,
)
    requires
        all_sound(data),
    ensures
        all_sound(all_stored(data, node, now, valid)),
        forall|n: Seq<char>| #[trigger]
            knows(all_stored(data, node, now, valid), n) ==> knows(data, n) || n == node,
    decreases valid.len(),
{
    if valid.len() > 0 {
        let head = valid.drop_last();
        lemma_all_stored_sound(data, node, now, head);
        lemma_data_stored_sound(
            all_stored(data, node, now, head),
            valid.last().query,
            window_of(node, now, valid.last()),
        );
    }
}

/// However batches come in, the gateway never knows more nodes than it may,
/// and every query stays in order: nodes sorted, the right window merged, and
/// no summary counting more nodes than belong to it.
pub proof fn law_admission_is_bounded(
    data: Seq<QueryView>,
    max_nodes: nat,
    cutoff: u64,
    node: Seq<char>,
    pushes: Seq<QueryPush>,
    now: u64,
)
    requires
        all_sound(data),
        node_count(data) <= max_nodes,
    ensures
        all_sound(applied(data, max_nodes, cutoff, node, pushes, now).data),
        node_count(applied(data, max_nodes, cutoff, node, pushes, now).data) <= max_nodes,
{
    let left = evicted(data, now, cutoff);
    lemma_evicted_sound(data, now, cutoff);
    lemma_node_count(left, data, None);
    let valid = valid_of(pushes);
    lemma_all_stored_sound(left, node, now, valid);
    lemma_node_count(all_stored(left, node, now, valid), left, Some(node));
}

proof fn lemma_screened(pushes: Seq<QueryPush>, names: Seq<Seq<char>>)
    ensures
        valid_of(all_screened(pushes, names)).len() <= named_count(pushes, names),
        forall|i: int|
            0 <= i < valid_of(all_screened(pushes, names)).len() ==> names.contains(
                (#[trigger] valid_of(all_screened(pushes, names))[i]).query,
            ),
    decreases pushes.len(),
{
    if pushes.len() > 0 {
        lemma_screened(pushes.drop_last(), names);
        assert(all_screened(pushes, names).drop_last() =~= all_screened(pushes.drop_last(), names));
    }
}

proof fn lemma_evicted_named(data: Seq<QueryView>, names: Seq<Seq<char>>, now: u64, cutoff: u64)
    requires
        only_named(data, names),
    ensures
        only_named(evicted(data, now, cutoff), names),
    decreases data.len(),
{
    if data.len() > 0 {
        let last = data[data.len() - 1];
        assert(names.contains(last.query));
        assert(only_named(data.drop_last(), names)) by {
            assert forall|i: int| 0 <= i < data.len() - 1 implies names.contains(
                (#[trigger] data.drop_last()[i]).query,
            ) by {
                assert(data[i] == data.drop_last()[i]);
            }
        }
        lemma_evicted_named(data.drop_last(), names, now, cutoff);
    }
}

proof fn lemma_stored_named(
    data: Seq<QueryView>,
    names: Seq<Seq<char>>,
    query: Seq<char>,
    w: NodeView,
)
    requires
        only_named(data, names),
        names.contains(query),
    ensures
        only_named(data_stored(data, query, w).0, names),
    decreases data.len(),
{
    if data.len() > 0 {
        let last = data[data.len() - 1];
        assert(names.contains(last.query));
        assert(only_named(data.drop_last(), names)) by {
            assert forall|i: int| 0 <= i < data.len() - 1 implies names.contains(
                (#[trigger] data.drop_last()[i]).query,
            ) by {
                assert(data[i] == data.drop_last()[i]);
            }
        }
        lemma_stored_named(data.drop_last(), names, query, w);
    }
}

proof fn lemma_all_stored_named(
    data: Seq<QueryView>,
    names: Seq<Seq<char>>,
    node: Seq<char>,
    now: u64,
    valid: Seq<Incoming>,
)
    requires
        only_named(data, names),
        forall|i: int| 0 <= i < valid.len() ==> names.contains((#[trigger] valid[i]).query),
    ensures
        only_named(all_stored(data, node, now, valid), names),
    decreases valid.len(),
{
    if valid.len() > 0 {
        let head = valid.drop_last();
        assert(names.contains(valid[valid.len() - 1].query));
        assert forall|i: int| 0 <= i < head.len() implies names.contains(
            (#[trigger] head[i]).query,
        ) by {
            assert(head[i] == valid[i]);
        }
        lemma_all_stored_named(data, names, node, now, head);
        lemma_stored_named(
            all_stored(data, node, now, head),
            names,
            valid.last().query,
            window_of(node, now, valid.last()),
        );
    }
}

/// A query that is not configured is never taken: no more queries are
/// accepted than are configured, each of those is, and no other gets a window.
pub proof fn law_unknown_queries_are_never_taken(
    data: Seq<QueryView>,
    max_nodes: nat,
    cutoff: u64,
    node: Seq<char>,
    pushes: Seq<QueryPush>,
    names: Seq<Seq<char>>,
    now: u64,
)
    requires
        only_named(data, names),
    ensures
        ({
            let known = all_screened(pushes, names);
            let a = applied(data, max_nodes, cutoff, node, known, now);
            &&& a.accepted <= valid_of(known).len() <= named_count(pushes, names)
            &&& forall|i: int|
                0 <= i < valid_of(known).len() ==> names.contains(
                    (#[trigger] valid_of(known)[i]).query,
                )
            &&& only_named(a.data, names)
        }),
{
    lemma_screened(pushes, names);
    lemma_evicted_named(data, names, now, cutoff);
    lemma_all_stored_named(
        evicted(data, now, cutoff),
        names,
        node,
        now,
        valid_of(all_screened(pushes, names)),
    );
}

proof fn lemma_valid_or_refused(pushes: Seq<QueryPush>, node: Seq<char>)
    ensures
        valid_of(pushes).len() + refusals(pushes, node).len() == pushes.len(),
    decreases pushes.len(),
{
    if pushes.len() > 0 {
        lemma_valid_or_refused(pushes.drop_last(), node);
    }
}

proof fn lemma_full_refusals_len(valid: Seq<Incoming>, node: Seq<char>, max_nodes: nat)
    ensures
        full_refusals(valid, node, max_nodes).len() == valid.len(),
    decreases valid.len(),
{
    if valid.len() > 0 {
        lemma_full_refusals_len(valid.drop_last(), node, max_nodes);
    }
}

/// Every query of a batch is either accepted or refused with a reason.
pub proof fn law_every_push_is_answered(
    data: Seq<QueryView>,
    max_nodes: nat,
    cutoff: u64,
    node: Seq<char>,
    pushes: Seq<QueryPush>,
    now: u64,
)
    ensures
        ({
            let a = applied(data, max_nodes, cutoff, node, pushes, now);
            a.accepted + a.rejected.len() == pushes.len()
        }),
{
    lemma_valid_or_refused(pushes, node);
    lemma_full_refusals_len(valid_of(pushes), node, max_nodes);
}

/// A node that is known can always refresh its windows, however full the
/// gateway is.
pub proof fn law_known_nodes_can_refresh(
    data: Seq<QueryView>,
    max_nodes: nat,
    cutoff: u64,
    node: Seq<char>,
    pushes: Seq<QueryPush>,
    now: u64,
)
    requires
        knows(evicted(data, now, cutoff), node),
    ensures
        !applied(data, max_nodes, cutoff, node, pushes, now).turned_away,
        applied(data, max_nodes, cutoff, node, pushes, now).accepted == valid_of(pushes).len(),
{
}

proof fn lemma_counts_fit(q: QueryView)
    requires
        is_sound(q),
    ensures
        sum(q.shard_nodes) <= q.nodes.len(),
{
    lemma_sum_members(q, MERGE_CACHE_SHARDS as nat);
    lemma_members_upto(q.nodes, q.target->0, MERGE_CACHE_SHARDS as nat);
    assert(q.shard_nodes.take(MERGE_CACHE_SHARDS as int) =~= q.shard_nodes);
}

proof fn lemma_sum_members(q: QueryView, k: nat)
    requires
        is_sound(q),
        k <= MERGE_CACHE_SHARDS,
    ensures
        sum(q.shard_nodes.take(k as int)) <= members_upto(q.nodes, q.target->0, k),
    decreases k,
{
    if k > 0 {
        lemma_sum_members(q, (k - 1) as nat);
        assert(q.shard_nodes.take(k as int).drop_last() =~= q.shard_nodes.take(k - 1));
        assert(q.shard_nodes[k - 1] <= members(q.nodes, q.target->0, k - 1).len());
    }
}

// ---------------------------------------------------------------------------
// Operations
// ---------------------------------------------------------------------------

fn split_pushes(pushes: &Vec<QueryPush>, node: &str) -> (r: Vec<String>)
    ensures
        texts(r@) == refusals(pushes@, node@),
{
    let mut rejected: Vec<String> = Vec::new();
    let mut i: usize = 0;
    assert(pushes@.take(0) =~= Seq::<QueryPush>::empty());
    assert(texts(rejected@) =~= refusals(pushes@.take(0), node@));
    while i < pushes.len()
        invariant
            i <= pushes@.len(),
            texts(rejected@) == refusals(pushes@.take(i as int), node@),
        decreases pushes@.len() - i,
    {
        let p = &pushes[i];
        assert(pushes@.take(i + 1).drop_last() =~= pushes@.take(i as int));
        let ghost before = rejected@;
        match &p.outcome {
            PushOutcome::Unknown => {
                let mut m = "query ".to_owned();
                m.append(quoted(p.query.as_str()).as_str());
                m.append(" is not configured on this gateway");
                rejected.push(m);
                assert(texts(rejected@) =~= texts(before).push(m@));
            },
            PushOutcome::Invalid(e) => {
                let mut m = "query ".to_owned();
                m.append(quoted(p.query.as_str()).as_str());
                m.append(" from node ");
                m.append(quoted(node).as_str());
                m.append(": ");
                m.append(e.as_str());
                rejected.push(m);
                assert(texts(rejected@) =~= texts(before).push(m@));
            },
            PushOutcome::Valid { .. } => {},
        }
        i += 1;
    }
    assert(pushes@.take(i as int) =~= pushes@);
    rejected
}

fn has_valid(pushes: &Vec<QueryPush>) -> (r: bool)
    ensures
        r == (valid_of(pushes@).len() > 0),
{
    let mut i: usize = 0;
    assert(pushes@.take(0) =~= Seq::<QueryPush>::empty());
    while i < pushes.len()
        invariant
            i <= pushes@.len(),
            valid_of(pushes@.take(i as int)).len() == 0,
        decreases pushes@.len() - i,
    {
        assert(pushes@.take(i + 1).drop_last() =~= pushes@.take(i as int));
        if let PushOutcome::Valid { .. } = &pushes[i].outcome {
            proof {
                lemma_valid_grows(pushes@, i + 1);
            }
            return true;
        }
        i += 1;
    }
    assert(pushes@.take(i as int) =~= pushes@);
    false
}

proof fn lemma_valid_grows(pushes: Seq<QueryPush>, n: int)
    requires
        0 <= n <= pushes.len(),
    ensures
        valid_of(pushes.take(n)).len() <= valid_of(pushes).len(),
    decreases pushes.len(),
{
    if n < pushes.len() {
        lemma_valid_grows(pushes.drop_last(), n);
        assert(pushes.drop_last().take(n) =~= pushes.take(n));
    } else {
        assert(pushes.take(n) =~= pushes);
    }
}

fn turn_away(pushes: &Vec<QueryPush>, node: &str, max_nodes: usize, rejected: &mut Vec<String>)
    ensures
        texts(final(rejected)@) == texts(old(rejected)@) + full_refusals(
            valid_of(pushes@),
            node@,
            max_nodes as nat,
        ),
{
    let ghost start = texts(rejected@);
    let mut i: usize = 0;
    assert(pushes@.take(0) =~= Seq::<QueryPush>::empty());
    assert(texts(rejected@) =~= start + full_refusals(
        valid_of(pushes@.take(0)),
        node@,
        max_nodes as nat,
    ));
    while i < pushes.len()
        invariant
            i <= pushes@.len(),
            texts(rejected@) == start + full_refusals(
                valid_of(pushes@.take(i as int)),
                node@,
                max_nodes as nat,
            ),
        decreases pushes@.len() - i,
    {
        let p = &pushes[i];
        assert(pushes@.take(i + 1).drop_last() =~= pushes@.take(i as int));
        if let PushOutcome::Valid { start: from, end, token } = &p.outcome {
            let ghost before = rejected@;
            let ghost valid = valid_of(pushes@.take(i as int));
            let mut m = "query ".to_owned();
            m.append(quoted(p.query.as_str()).as_str());
            m.append(" from node ");
            m.append(quoted(node).as_str());
            m.append(": gateway node capacity ");
            push_decimal(&mut m, max_nodes as u64);
            m.append(" is full");
            rejected.push(m);
            proof {
                let next = valid_of(pushes@.take(i + 1));
                assert(next.drop_last() =~= valid);
                assert(next.last().query == p.query@);
                assert(texts(rejected@) =~= texts(before).push(m@));
                assert(texts(rejected@) =~= start + full_refusals(next, node@, max_nodes as nat));
            }
        }
        i += 1;
    }
    assert(pushes@.take(i as int) =~= pushes@);
}

fn store_pushes(
    data: &mut Vec<QueryWindows>,
    node: &str,
    pushes: &Vec<QueryPush>,
    now: u64,
    rebuilds: &mut Vec<Rebuild>,
) -> (accepted: usize)
    requires
        all_sound(query_views(old(data)@)),
    ensures
        query_views(final(data)@) == all_stored(
            query_views(old(data)@),
            node@,
            now,
            valid_of(pushes@),
        ),
        rebuild_views(final(rebuilds)@) == rebuild_views(old(rebuilds)@) + store_rebuilds(
            query_views(old(data)@),
            node@,
            now,
            valid_of(pushes@),
        ),
        accepted == valid_of(pushes@).len(),
{
    let ghost start = query_views(data@);
    let ghost lost = rebuild_views(rebuilds@);
    let mut accepted: usize = 0;
    let mut i: usize = 0;
    assert(pushes@.take(0) =~= Seq::<QueryPush>::empty());
    assert(rebuild_views(rebuilds@) =~= lost + store_rebuilds(
        start,
        node@,
        now,
        valid_of(pushes@.take(0)),
    ));
    while i < pushes.len()
        invariant
            i <= pushes@.len(),
            accepted <= i,
            all_sound(start),
            accepted == valid_of(pushes@.take(i as int)).len(),
            query_views(data@) == all_stored(start, node@, now, valid_of(pushes@.take(i as int))),
            rebuild_views(rebuilds@) == lost + store_rebuilds(
                start,
                node@,
                now,
                valid_of(pushes@.take(i as int)),
            ),
        decreases pushes@.len() - i,
    {
        let p = &pushes[i];
        let ghost valid = valid_of(pushes@.take(i as int));
        assert(pushes@.take(i + 1).drop_last() =~= pushes@.take(i as int));
        if let PushOutcome::Valid { start: from, end, token } = &p.outcome {
            let ghost next = valid_of(pushes@.take(i + 1));
            proof {
                assert(next.drop_last() =~= valid);
                lemma_all_stored_sound(start, node@, now, valid);
            }
            let w = NodeWindow {
                node: node.to_owned(),
                received: now,
                start: *from,
                end: *end,
                token: *token,
            };
            assert(w@ == window_of(node@, now, next.last()));
            let ghost before = rebuilds@;
            let changed = store(data, p.query.as_str(), w);
            if let Some(shards) = changed {
                let rebuild = Rebuild { query: p.query.as_str().to_owned(), shards };
                rebuilds.push(rebuild);
                assert(rebuild_views(rebuilds@) =~= rebuild_views(before).push(
                    (p.query@, rebuild.shards@),
                ));
            }
            assert(rebuild_views(rebuilds@) =~= lost + store_rebuilds(start, node@, now, next));
            accepted += 1;
        }
        i += 1;
    }
    assert(pushes@.take(i as int) =~= pushes@);
    accepted
}

impl GatewayState {
    /// Names of the queries that are merged.
    pub closed spec fn configured(&self) -> Seq<Seq<char>> {
        texts(self.queries@)
    }

    /// The windows.
    pub closed spec fn windows(&self) -> Seq<QueryView> {
        query_views(self.data@)
    }

    /// Most nodes that may be known.
    pub closed spec fn capacity(&self) -> nat {
        self.max_nodes as nat
    }

    /// How long a node is known that does not push.
    pub closed spec fn cutoff(&self) -> u64 {
        self.stale_after
    }

    pub closed spec fn counts(&self) -> GatewayCounters {
        self.counters
    }

    /// Queries in order, all of them configured, and no more nodes than there
    /// is room for.
    pub open spec fn wf(&self) -> bool {
        &&& all_sound(self.windows())
        &&& node_count(self.windows()) <= self.capacity()
        &&& only_named(self.windows(), self.configured())
    }

    /// Nothing but windows and counters has changed.
    pub open spec fn same_settings(&self, before: &Self) -> bool {
        &&& self.configured() == before.configured()
        &&& self.capacity() == before.capacity()
        &&& self.cutoff() == before.cutoff()
    }

    pub fn new(queries: Vec<String>, stale_after: u64, max_nodes: usize) -> (r: Self)
        requires
            max_nodes > 0,
        ensures
            r.wf(),
            r.configured() == texts(queries@),
            r.windows() == Seq::<QueryView>::empty(),
            r.capacity() == max_nodes,
            r.cutoff() == stale_after,
            r.counts() == (GatewayCounters {
                pushes_total: 0,
                snapshots_accepted: 0,
                snapshots_rejected: 0,
                node_admission_rejections: 0,
                body_budget_rejections: 0,
                merge_cache_shard_rebuilds: 0,
            }),
    {
        let r = GatewayState {
            queries,
            max_nodes,
            stale_after,
            data: Vec::new(),
            counters: GatewayCounters {
                pushes_total: 0,
                snapshots_accepted: 0,
                snapshots_rejected: 0,
                node_admission_rejections: 0,
                body_budget_rejections: 0,
                merge_cache_shard_rebuilds: 0,
            },
        };
        assert(r.windows() =~= Seq::<QueryView>::empty());
        r
    }

    /// Whether a query is merged here.
    pub fn is_configured(&self, query: &str) -> (r: bool)
        ensures
            r == self.configured().contains(query@),
    {
        let ghost names = texts(self.queries@);
        let mut i: usize = 0;
        while i < self.queries.len()
            invariant
                i <= self.queries@.len(),
                names == texts(self.queries@),
                forall|j: int| 0 <= j < i ==> names[j] != query@,
            decreases self.queries@.len() - i,
        {
            if same_text(self.queries[i].as_str(), query) {
                assert(names[i as int] == query@);
                return true;
            }
            i += 1;
        }
        false
    }

    /// The pushes, those of queries that are not configured made unknown.
    fn screen(&self, pushes: Vec<QueryPush>) -> (r: Vec<QueryPush>)
        ensures
            r@ == all_screened(pushes@, self.configured()),
    {
        let ghost names = self.configured();
        let ghost all = pushes@;
        let mut out = pushes;
        let mut i: usize = 0;
        while i < out.len()
            invariant
                names == self.configured(),
                i <= out@.len(),
                out@.len() == all.len(),
                forall|j: int| 0 <= j < i ==> #[trigger] out@[j] == screened(all[j], names),
                forall|j: int| i <= j < all.len() ==> #[trigger] out@[j] == all[j],
            decreases out@.len() - i,
        {
            if !self.is_configured(out[i].query.as_str()) {
                out[i].outcome = PushOutcome::Unknown;
            }
            i += 1;
        }
        assert(out@ =~= all_screened(all, names));
        out
    }

    /// Apply a batch of `node`, query by query: `pushes` says what became of
    /// the snapshots of each. A query that is not configured is never taken.
    /// A window older than the one stored does not roll it back. Returns what
    /// became of the batch and which summaries have to be made anew.
    pub fn apply_batch(&mut self, node: &str, pushes: Vec<QueryPush>, now: u64) -> (r: (
        ApplyResult,
        Vec<Rebuild>,
    ))
        requires
            old(self).wf(),
        ensures
            final(self).wf(),
            final(self).same_settings(old(self)),
            ({
                let a = applied(
                    old(self).windows(),
                    old(self).capacity(),
                    old(self).cutoff(),
                    node@,
                    all_screened(pushes@, old(self).configured()),
                    now,
                );
                &&& final(self).windows() == a.data
                &&& final(self).counts() == counted(old(self).counts(), a)
                &&& r.0.accepted == a.accepted
                &&& texts(r.0.rejected@) == a.rejected
                &&& rebuild_views(r.1@) == a.rebuilds
            }),
            r.0.accepted + r.0.rejected@.len() == pushes@.len(),
            r.0.accepted <= named_count(pushes@, old(self).configured()),
    {
        let ghost names = self.configured();
        let ghost before = pushes@;
        let pushes = self.screen(pushes);
        let ghost a = applied(
            self.windows(),
            self.capacity(),
            self.cutoff(),
            node@,
            pushes@,
            now,
        );
        proof {
            law_admission_is_bounded(
                self.windows(),
                self.capacity(),
                self.cutoff(),
                node@,
                pushes@,
                now,
            );
            law_unknown_queries_are_never_taken(
                self.windows(),
                self.capacity(),
                self.cutoff(),
                node@,
                before,
                names,
                now,
            );
            law_every_push_is_answered(
                self.windows(),
                self.capacity(),
                self.cutoff(),
                node@,
                pushes@,
                now,
            );
        }
        self.counters.pushes_total = add_count(self.counters.pushes_total, 1, Ghost(1));
        let mut rejected = split_pushes(&pushes, node);
        let mut accepted: usize = 0;
        let mut rebuilds: Vec<Rebuild> = Vec::new();
        let mut turned_away = false;
        assert(rebuild_views(rebuilds@) =~= Seq::<(Seq<char>, Seq<bool>)>::empty());
        if has_valid(&pushes) {
            let mut data: Vec<QueryWindows> = Vec::new();
            core::mem::swap(&mut data, &mut self.data);
            proof {
                lemma_evicted_sound(query_views(data@), now, self.stale_after);
            }
            let (left, lost) = evict(data, now, self.stale_after);
            self.data = left;
            rebuilds = lost;
            if !is_known(&self.data, node) && count_nodes(&self.data) >= self.max_nodes {
                turned_away = true;
                turn_away(&pushes, node, self.max_nodes, &mut rejected);
            } else {
                accepted = store_pushes(&mut self.data, node, &pushes, now, &mut rebuilds);
            }
        }
        let n: u64 = count_rebuilds(&rebuilds);
        assert(texts(rejected@).len() == rejected@.len());
        let refused: u64 = rejected.len() as u64;
        self.counters.node_admission_rejections = add_count(
            self.counters.node_admission_rejections,
            if turned_away {
                1
            } else {
                0
            },
            Ghost(
                if turned_away {
                    1
                } else {
                    0
                },
            ),
        );
        self.counters.merge_cache_shard_rebuilds = add_count(
            self.counters.merge_cache_shard_rebuilds,
            n,
            Ghost(rebuild_count(a.rebuilds)),
        );
        self.counters.snapshots_accepted = add_count(
            self.counters.snapshots_accepted,
            accepted as u64,
            Ghost(a.accepted),
        );
        self.counters.snapshots_rejected = add_count(
            self.counters.snapshots_rejected,
            refused,
            Ghost(a.rejected.len()),
        );
        (ApplyResult { accepted, rejected }, rebuilds)
    }

    /// Forget the nodes that do not push any more. Says which summaries have
    /// to be made anew.
    pub fn evict_stale(&mut self, now: u64) -> (r: Vec<Rebuild>)
        requires
            old(self).wf(),
        ensures
            final(self).wf(),
            final(self).same_settings(old(self)),
            final(self).windows() == evicted(old(self).windows(), now, old(self).cutoff()),
            rebuild_views(r@) == eviction_rebuilds(old(self).windows(), now, old(self).cutoff()),
            final(self).counts() == (GatewayCounters {
                merge_cache_shard_rebuilds: plus(
                    old(self).counts().merge_cache_shard_rebuilds,
                    rebuild_count(
                        eviction_rebuilds(old(self).windows(), now, old(self).cutoff()),
                    ),
                ),
                ..old(self).counts()
            }),
    {
        proof {
            lemma_evicted_sound(self.windows(), now, self.cutoff());
            lemma_evicted_named(self.windows(), self.configured(), now, self.cutoff());
            lemma_node_count(
                evicted(self.windows(), now, self.cutoff()),
                self.windows(),
                None,
            );
        }
        let mut data: Vec<QueryWindows> = Vec::new();
        core::mem::swap(&mut data, &mut self.data);
        let (left, lost) = evict(data, now, self.stale_after);
        self.data = left;
        let n: u64 = count_rebuilds(&lost);
        self.counters.merge_cache_shard_rebuilds = add_count(
            self.counters.merge_cache_shard_rebuilds,
            n,
            Ghost(rebuild_count(rebuild_views(lost@))),
        );
        lost
    }

    /// Count a push that was refused before its body was read.
    pub fn count_body_refusal(&mut self)
        requires
            old(self).wf(),
        ensures
            final(self).wf(),
            final(self).same_settings(old(self)),
            final(self).windows() == old(self).windows(),
            final(self).counts() == (GatewayCounters {
                body_budget_rejections: plus(old(self).counts().body_budget_rejections, 1),
                ..old(self).counts()
            }),
    {
        self.counters.body_budget_rejections = add_count(
            self.counters.body_budget_rejections,
            1,
            Ghost(1),
        );
    }

    /// Tokens of the windows that are merged into one summary of a query, in
    /// the order in which they are merged.
    pub fn shard_tokens(&self, query: &str, shard: usize) -> (r: Vec<u64>)
        ensures
            r@ == match query_of(self.windows(), query@) {
                Some(q) => match q.target {
                    Some(target) => members(q.nodes, target, shard as int),
                    None => Seq::empty(),
                },
                None => Seq::empty(),
            },
    {
        match find_query(&self.data, query) {
            Some(i) => {
                let q = &self.data[i];
                match q.target {
                    Some(target) => shard_members(&q.nodes, target, shard),
                    None => Vec::new(),
                }
            },
            None => Vec::new(),
        }
    }

    /// Take note that a summary of a query has been made out of `merged` of
    /// its windows.
    pub fn record_shard(&mut self, query: &str, shard: usize, merged: usize)
        requires
            old(self).wf(),
            shard < MERGE_CACHE_SHARDS,
            query_of(old(self).windows(), query@) matches Some(q) && q.target is Some && merged
                <= members(q.nodes, q.target->0, shard as int).len(),
        ensures
            final(self).wf(),
            final(self).same_settings(old(self)),
            final(self).counts() == old(self).counts(),
            final(self).windows().len() == old(self).windows().len(),
            forall|i: int|
                0 <= i < old(self).windows().len() ==> #[trigger] final(self).windows()[i]
                    == recorded(old(self).windows()[i], query@, shard as int, merged),
    {
        let ghost before = self.windows();
        let i: usize = match find_query(&self.data, query) {
            Some(i) => i,
            None => {
                return ;
            },
        };
        let ghost held = self.data@;
        proof {
            assert(before[i as int] == held[i as int]@);
            assert(is_sound(before[i as int]));
        }
        let mut q = self.data.remove(i);
        q.shard_nodes.set(shard, merged);
        let ghost view = q@;
        self.data.insert(i, q);
        proof {
            let now = self.windows();
            lemma_query_of_place(before, query@, i as int);
            assert forall|j: int| 0 <= j < before.len() implies #[trigger] now[j] == recorded(
                before[j],
                query@,
                shard as int,
                merged,
            ) by {
                assert(before[j] == held[j]@);
                if j == i {
                    assert(now[j] =~= recorded(before[j], query@, shard as int, merged));
                } else if before[j].query == query@ {
                    if j < i {
                        assert(text_before(before[j].query, before[i as int].query));
                    } else {
                        assert(text_before(before[i as int].query, before[j].query));
                    }
                    lemma_text_irreflexive(query@);
                }
            }
            lemma_recorded_sound(before, now, query@, shard as int, merged);
            assert forall|j: int| 0 <= j < now.len() implies self.configured().contains(
                (#[trigger] now[j]).query,
            ) by {
                assert(now[j].query == before[j].query);
            }
        }
    }

    /// What the windows of each query merge to, in the order of the plans.
    pub fn merged(&self) -> (r: Vec<MergedQuery>)
        requires
            self.wf(),
        ensures
            merged_views(r@) == merges(self.windows(), self.configured()),
    {
        let ghost names = texts(self.queries@);
        let mut out: Vec<MergedQuery> = Vec::new();
        let mut i: usize = 0;
        assert(names.take(0) =~= Seq::<Seq<char>>::empty());
        assert(merged_views(out@) =~= merges(self.windows(), names.take(0)));
        while i < self.queries.len()
            invariant
                i <= self.queries@.len(),
                self.wf(),
                names == texts(self.queries@),
                merged_views(out@) == merges(self.windows(), names.take(i as int)),
            decreases self.queries@.len() - i,
        {
            assert(names.take(i + 1).drop_last() =~= names.take(i as int));
            assert(names.take(i + 1).last() == self.queries@[i as int]@);
            if let Some(k) = find_query(&self.data, self.queries[i].as_str()) {
                let q = &self.data[k];
                if let Some(target) = q.target {
                    proof {
                        assert(self.windows()[k as int] == q@);
                        assert(is_sound(q@));
                        lemma_counts_fit(q@);
                        assert(q@.nodes.len() == q.nodes.len());
                        assert(q@.shard_nodes == q.shard_nodes@);
                        assert(sum(q.shard_nodes@) <= q.nodes.len());
                    }
                    let nodes_merged: usize = sum_counts(&q.shard_nodes);
                    let m = MergedQuery {
                        query_name: self.queries[i].as_str().to_owned(),
                        nodes_known: q.nodes.len(),
                        nodes_merged,
                        window_end_nanos: target.1,
                    };
                    let ghost before = out@;
                    let ghost view = m@;
                    out.push(m);
                    assert(merged_views(out@) =~= merged_views(before).push(view));
                }
            }
            i += 1;
        }
        assert(names.take(i as int) =~= names);
        out
    }

    /// How many different nodes are known.
    pub fn nodes_tracked(&self) -> (r: usize)
        ensures
            r == node_count(self.windows()),
    {
        count_nodes(&self.data)
    }

    /// The counters.
    pub fn counter_values(&self) -> (r: GatewayCounters)
        ensures
            r == self.counts(),
    {
        self.counters
    }

    /// Most nodes that may be known.
    pub fn max_nodes(&self) -> (r: usize)
        ensures
            r == self.capacity(),
    {
        self.max_nodes
    }

    /// How many queries are merged.
    pub fn query_count(&self) -> (r: usize)
        ensures
            r == self.configured().len(),
    {
        assert(self.configured().len() == self.queries@.len());
        self.queries.len()
    }

    /// The windows of all queries, for display.
    pub fn query_windows(&self) -> (r: &Vec<QueryWindows>)
        ensures
            query_views(r@) == self.windows(),
    {
        &self.data
    }
}

/// A query after a summary of the query named has been made.
pub open spec fn recorded(q: QueryView, query: Seq<char>, shard: int, merged: usize) -> QueryView {
    if q.query == query {
        QueryView { shard_nodes: q.shard_nodes.update(shard, merged), ..q }
    } else {
        q
    }
}

proof fn lemma_query_of_place(data: Seq<QueryView>, query: Seq<char>, i: int)
    requires
        query_of(data, query) is Some,
    ensures
        query_of(data, query)->0.query == query,
    decreases data.len(),
{
    if data.len() > 0 && data[0].query != query {
        lemma_query_of_place(data.drop_first(), query, i - 1);
    }
}

proof fn lemma_recorded_sound(
    before: Seq<QueryView>,
    now: Seq<QueryView>,
    query: Seq<char>,
    shard: int,
    merged: usize,
)
    requires
        all_sound(before),
        0 <= shard < MERGE_CACHE_SHARDS,
        before.len() == now.len(),
        query_of(before, query) matches Some(q) && merged <= members(
            q.nodes,
            q.target->0,
            shard,
        ).len(),
        forall|i: int|
            0 <= i < before.len() ==> #[trigger] now[i] == recorded(
                before[i],
                query,
                shard,
                merged,
            ),
    ensures
        all_sound(now),
        node_count(now) == node_count(before),
{
    assert forall|i: int, j: int| 0 <= i < j < now.len() implies text_before(
        (#[trigger] now[i]).query,
        (#[trigger] now[j]).query,
    ) by {
        assert(text_before(before[i].query, before[j].query));
    }
    assert forall|i: int| 0 <= i < now.len() implies in_node_order((#[trigger] now[i]).nodes) by {
        assert(in_node_order(before[i].nodes));
    }
    assert forall|i: int| 0 <= i < now.len() implies is_sound(#[trigger] now[i]) by {
        assert(is_sound(before[i]));
        if before[i].query == query {
            lemma_query_of_unique(before, query, i);
        }
    }
    lemma_same_nodes_same_names(before, now);
}

proof fn lemma_query_of_unique(data: Seq<QueryView>, query: Seq<char>, i: int)
    requires
        in_query_order(data),
        0 <= i < data.len(),
        data[i].query == query,
    ensures
        query_of(data, query) == Some(data[i]),
    decreases data.len(),
{
    if data[0].query == query {
        if i > 0 {
            assert(text_before(data[0].query, data[i].query));
            lemma_text_irreflexive(query);
        }
    } else {
        let rest = data.drop_first();
        assert forall|a: int, b: int| 0 <= a < b < rest.len() implies text_before(
            (#[trigger] rest[a]).query,
            (#[trigger] rest[b]).query,
        ) by {
            assert(rest[a] == data[a + 1] && rest[b] == data[b + 1]);
        }
        assert forall|a: int| 0 <= a < rest.len() implies in_node_order(
            (#[trigger] rest[a]).nodes,
        ) by {
            assert(rest[a] == data[a + 1]);
        }
        assert(rest[i - 1] == data[i]);
        lemma_query_of_unique(rest, query, i - 1);
    }
}

proof fn lemma_same_nodes_same_names(a: Seq<QueryView>, b: Seq<QueryView>)
    requires
        a.len() == b.len(),
        forall|i: int| 0 <= i < a.len() ==> (#[trigger] b[i]).nodes == a[i].nodes,
    ensures
        all_node_names(a) == all_node_names(b),
    decreases a.len(),
{
    if a.len() > 0 {
        assert(b[b.len() - 1].nodes == a[a.len() - 1].nodes);
        assert forall|i: int| 0 <= i < a.drop_last().len() implies (
        #[trigger] b.drop_last()[i]).nodes == a.drop_last()[i].nodes by {
            assert(b.drop_last()[i] == b[i]);
        }
        lemma_same_nodes_same_names(a.drop_last(), b.drop_last());
    }
}

} // verus!
