//! What the gateway's windows are for: every node that has the merged window
//! contributes its own sketches exactly once, the freshest window that most
//! nodes share is the merged one, and storing or forgetting a node touches no
//! other.

use vstd::multiset::Multiset;
use vstd::prelude::*;

use crate::gateway::queries::{
    all_stored, data_stored, empty_query, evicted, in_query_order, is_sound, query_stored, selected,
    Incoming, QueryView,
};
use crate::gateway::state::{
    all_node_names, applied, counted, knows, lemma_all_node_names, lemma_ascending_distinct, merges,
    node_count, query_of, sum, valid_of, Applied, GatewayCounters, PushOutcome, QueryPush,
};
use crate::gateway::windows::{
    alive, in_node_order, is_selected, latest_end, law_a_window_is_selected, members, preferred,
    shard_of, stored, votes, NodeView, MERGE_CACHE_SHARDS,
};
use crate::names::{law_sorted_names, lemma_text_irreflexive, sorted_names};
use crate::text::text_before;

verus! {

// ---------------------------------------------------------------------------
// Which windows are merged
// ---------------------------------------------------------------------------

/// The tokens that are merged into the first `k` summaries.
pub open spec fn tokens_upto(nodes: Seq<NodeView>, t: (u64, u64), k: nat) -> Multiset<u64>
    decreases k,
{
    if k == 0 {
        Multiset::empty()
    } else {
        tokens_upto(nodes, t, (k - 1) as nat).add(members(nodes, t, k - 1).to_multiset())
    }
}

/// The tokens of the nodes that have exactly this window.
pub open spec fn tokens_with(nodes: Seq<NodeView>, t: (u64, u64)) -> Multiset<u64> {
    nodes.filter(|w: NodeView| w.start == t.0 && w.end == t.1).map_values(
        |w: NodeView| w.token,
    ).to_multiset()
}

proof fn lemma_tokens_step(nodes: Seq<NodeView>, t: (u64, u64), k: nat)
    requires
        nodes.len() > 0,
        k <= MERGE_CACHE_SHARDS,
    ensures
        ({
            let w = nodes.last();
            tokens_upto(nodes, t, k) == if w.start == t.0 && w.end == t.1 && shard_of(w.node) < k {
                tokens_upto(nodes.drop_last(), t, k).insert(w.token)
            } else {
                tokens_upto(nodes.drop_last(), t, k)
            }
        }),
    decreases k,
{
    broadcast use vstd::seq_lib::group_to_multiset_ensures;

    if k > 0 {
        lemma_tokens_step(nodes, t, (k - 1) as nat);
        let w = nodes.last();
        let before = members(nodes.drop_last(), t, k - 1);
        if w.start == t.0 && w.end == t.1 && shard_of(w.node) == k - 1 {
            assert(members(nodes, t, k - 1) == before.push(w.token));
            assert(tokens_upto(nodes, t, k) =~= tokens_upto(nodes.drop_last(), t, k).insert(
                w.token,
            ));
        } else if w.start == t.0 && w.end == t.1 && shard_of(w.node) < k {
            assert(tokens_upto(nodes, t, k) =~= tokens_upto(nodes.drop_last(), t, k).insert(
                w.token,
            ));
        } else {
            assert(tokens_upto(nodes, t, k) =~= tokens_upto(nodes.drop_last(), t, k));
        }
    }
}

/// Every node that has the merged window contributes its own token exactly
/// once: over all summaries the tokens are those of the nodes with that
/// window, and no other.
pub proof fn law_every_node_with_the_window_is_merged_once(nodes: Seq<NodeView>, t: (u64, u64))
    ensures
        tokens_upto(nodes, t, MERGE_CACHE_SHARDS as nat) == tokens_with(nodes, t),
    decreases nodes.len(),
{
    broadcast use vstd::seq_lib::group_to_multiset_ensures;

    reveal(Seq::filter);
    let fits = |w: NodeView| w.start == t.0 && w.end == t.1;
    let token = |w: NodeView| w.token;
    if nodes.len() == 0 {
        lemma_no_tokens(nodes, t, MERGE_CACHE_SHARDS as nat);
        assert(nodes.filter(fits).map_values(token) =~= Seq::<u64>::empty());
        assert(tokens_with(nodes, t) =~= Multiset::empty());
    } else {
        let head = nodes.drop_last();
        let w = nodes.last();
        law_every_node_with_the_window_is_merged_once(head, t);
        lemma_tokens_step(nodes, t, MERGE_CACHE_SHARDS as nat);
        if fits(w) {
            assert(nodes.filter(fits) =~= head.filter(fits).push(w));
            assert(nodes.filter(fits).map_values(token) =~= head.filter(fits).map_values(token).push(
                w.token,
            ));
        } else {
            assert(nodes.filter(fits) =~= head.filter(fits));
        }
    }
}

proof fn lemma_no_tokens(nodes: Seq<NodeView>, t: (u64, u64), k: nat)
    requires
        nodes.len() == 0,
    ensures
        tokens_upto(nodes, t, k) == Multiset::<u64>::empty(),
    decreases k,
{
    broadcast use vstd::seq_lib::group_to_multiset_ensures;

    if k > 0 {
        lemma_no_tokens(nodes, t, (k - 1) as nat);
        assert(members(nodes, t, k - 1).to_multiset() =~= Multiset::empty());
        assert(tokens_upto(nodes, t, k) =~= Multiset::empty());
    }
}

/// The tokens of one summary are those of its nodes that have the window, in
/// the order of the nodes.
pub proof fn law_a_summary_merges_its_own_nodes(nodes: Seq<NodeView>, t: (u64, u64), shard: int)
    ensures
        members(nodes, t, shard) == nodes.filter(
            |w: NodeView| shard_of(w.node) == shard && w.start == t.0 && w.end == t.1,
        ).map_values(|w: NodeView| w.token),
    decreases nodes.len(),
{
    reveal(Seq::filter);
    let fits = |w: NodeView| shard_of(w.node) == shard && w.start == t.0 && w.end == t.1;
    let token = |w: NodeView| w.token;
    if nodes.len() == 0 {
        assert(nodes.filter(fits).map_values(token) =~= Seq::<u64>::empty());
    } else {
        let head = nodes.drop_last();
        let w = nodes.last();
        law_a_summary_merges_its_own_nodes(head, t, shard);
        if fits(w) {
            assert(nodes.filter(fits).map_values(token) =~= head.filter(fits).map_values(token).push(
                w.token,
            ));
        } else {
            assert(nodes.filter(fits) =~= head.filter(fits));
        }
    }
}

/// How many nodes have a window.
pub open spec fn sharers(nodes: Seq<NodeView>, start: u64, end: u64) -> nat {
    nodes.filter(|w: NodeView| w.start == start && w.end == end).len()
}

proof fn lemma_votes_are_sharers(nodes: Seq<NodeView>, start: u64, end: u64)
    ensures
        votes(nodes, start, end) == sharers(nodes, start, end),
    decreases nodes.len(),
{
    reveal(Seq::filter);
    if nodes.len() > 0 {
        lemma_votes_are_sharers(nodes.drop_last(), start, end);
    }
}

proof fn lemma_latest_bounds(nodes: Seq<NodeView>, i: int)
    requires
        0 <= i < nodes.len(),
    ensures
        nodes[i].end <= latest_end(nodes),
    decreases nodes.len(),
{
    if i < nodes.len() - 1 {
        lemma_latest_bounds(nodes.drop_last(), i);
        assert(nodes.drop_last()[i] == nodes[i]);
    }
}

proof fn lemma_has_sharer(nodes: Seq<NodeView>, i: int, start: u64, end: u64)
    requires
        0 <= i < nodes.len(),
        nodes[i].start == start,
        nodes[i].end == end,
    ensures
        sharers(nodes, start, end) > 0,
    decreases nodes.len(),
{
    reveal(Seq::filter);
    if i < nodes.len() - 1 {
        lemma_has_sharer(nodes.drop_last(), i, start, end);
    }
}

/// The merged window is the freshest common one: no node has a later end, some
/// node has exactly that window, no other window with that end has more nodes,
/// and none that has as many starts earlier.
pub proof fn law_the_freshest_common_window_is_merged(nodes: Seq<NodeView>, i: int)
    requires
        0 <= i < nodes.len(),
    ensures
        selected(nodes) is Some,
        ({
            let (start, end) = selected(nodes)->0;
            &&& nodes[i].end <= end
            &&& sharers(nodes, start, end) > 0
            &&& nodes[i].end == end ==> sharers(nodes, nodes[i].start, end) <= sharers(
                nodes,
                start,
                end,
            )
            &&& nodes[i].end == end && sharers(nodes, nodes[i].start, end) == sharers(
                nodes,
                start,
                end,
            ) ==> start <= nodes[i].start
        }),
{
    law_a_window_is_selected(nodes);
    let w = choose|w: (u64, u64)| is_selected(nodes, w);
    assert(selected(nodes) == Some(w));
    lemma_latest_bounds(nodes, i);
    lemma_votes_are_sharers(nodes, w.0, w.1);
    if nodes[i].end == w.1 {
        lemma_votes_are_sharers(nodes, nodes[i].start, w.1);
        lemma_has_sharer(nodes, i, nodes[i].start, w.1);
        assert(preferred(nodes, w.1, w.0, nodes[i].start));
    }
}

// ---------------------------------------------------------------------------
// Storing and forgetting
// ---------------------------------------------------------------------------

proof fn lemma_order_drop_last(nodes: Seq<NodeView>)
    requires
        in_node_order(nodes),
        nodes.len() > 0,
    ensures
        in_node_order(nodes.drop_last()),
        forall|i: int| 0 <= i < nodes.len() - 1 ==> (#[trigger] nodes[i]).node != nodes.last().node,
{
    let head = nodes.drop_last();
    assert forall|i: int, j: int| 0 <= i < j < head.len() implies text_before(
        (#[trigger] head[i]).node,
        (#[trigger] head[j]).node,
    ) by {
        assert(head[i] == nodes[i] && head[j] == nodes[j]);
    }
    assert forall|i: int| 0 <= i < nodes.len() - 1 implies (#[trigger] nodes[i]).node
        != nodes.last().node by {
        assert(text_before(nodes[i].node, nodes[nodes.len() - 1].node));
        lemma_text_irreflexive(nodes[i].node);
    }
}

/// A push changes the window of its own node and of no other. The window that
/// comes in is kept, unless the node has one that ends later; then that one is
/// kept and only the time of the push is noted.
pub proof fn law_a_push_changes_only_its_node(nodes: Seq<NodeView>, w: NodeView, x: NodeView)
    requires
        in_node_order(nodes),
    ensures
        x.node != w.node ==> (stored(nodes, w).contains(x) <==> nodes.contains(x)),
        x.node == w.node && nodes.contains(x) && x.end > w.end ==> stored(nodes, w).contains(
            NodeView {
                node: x.node,
                received: w.received,
                start: x.start,
                end: x.end,
                token: x.token,
            },
        ),
        x.node == w.node && nodes.contains(x) && x.end <= w.end ==> stored(nodes, w).contains(w),
        (forall|y: NodeView| #[trigger] nodes.contains(y) ==> y.node != w.node) ==> stored(
            nodes,
            w,
        ).contains(w),
        x.node == w.node && x.end != w.end && stored(nodes, w).contains(x) ==> x.end > w.end,
    decreases nodes.len(),
{
    let r = stored(nodes, w);
    if nodes.len() == 0 {
        assert(r[0] == w);
        assert(r.contains(w));
    } else {
        let head = nodes.drop_last();
        let last = nodes.last();
        let n = nodes.len() - 1;
        lemma_order_drop_last(nodes);
        assert(nodes[n] == last);
        assert(nodes.contains(last));
        if last.node == w.node {
            assert(r.len() == nodes.len());
            assert(r[n].received == w.received || r[n] == w);
            assert(r.contains(r[n]));
            lemma_contains_last(nodes, x);
            lemma_contains_last(r, x);
            assert(r.drop_last() =~= head);
            if nodes.contains(x) && x.node == w.node {
                if head.contains(x) {
                    let i = choose|i: int| 0 <= i < head.len() && head[i] == x;
                    assert(nodes[i].node == last.node);
                }
                assert(x == last);
            }
            if head.contains(x) && x.node == w.node {
                let i = choose|i: int| 0 <= i < head.len() && head[i] == x;
                assert(nodes[i].node == last.node);
            }
        } else if text_before(last.node, w.node) {
            lemma_contains_last(r, x);
            lemma_contains_last(r, w);
            assert(r.drop_last() =~= nodes);
            assert(r[r.len() - 1] == w);
            if nodes.contains(x) && x.node == w.node {
                let i = choose|i: int| 0 <= i < nodes.len() && nodes[i] == x;
                if i < n {
                    assert(text_before(nodes[i].node, nodes[n].node));
                    crate::names::lemma_text_transitive(nodes[i].node, last.node, w.node);
                }
                lemma_text_irreflexive(w.node);
            }
        } else {
            law_a_push_changes_only_its_node(head, w, x);
            let h = stored(head, w);
            assert(r =~= h.push(last));
            assert(r.drop_last() =~= h);
            lemma_contains_last(nodes, x);
            lemma_contains_last(r, x);
            lemma_contains_last(r, w);
            let seen = NodeView {
                node: x.node,
                received: w.received,
                start: x.start,
                end: x.end,
                token: x.token,
            };
            lemma_contains_last(r, seen);
            assert forall|y: NodeView| #[trigger] head.contains(y) implies nodes.contains(y) by {
                lemma_contains_last(nodes, y);
            }
        }
    }
}

proof fn lemma_contains_last(s: Seq<NodeView>, x: NodeView)
    requires
        s.len() > 0,
    ensures
        s.contains(x) <==> s.drop_last().contains(x) || s.last() == x,
{
    if s.contains(x) {
        let i = choose|i: int| 0 <= i < s.len() && s[i] == x;
        if i < s.len() - 1 {
            assert(s.drop_last()[i] == x);
        }
    }
    if s.drop_last().contains(x) {
        let i = choose|i: int| 0 <= i < s.drop_last().len() && s.drop_last()[i] == x;
        assert(s[i] == x);
    }
    assert(s[s.len() - 1] == s.last());
}

/// A node is forgotten when it has not pushed for the cutoff, and not before.
pub proof fn law_silent_nodes_are_forgotten(
    nodes: Seq<NodeView>,
    now: u64,
    cutoff: u64,
    w: NodeView,
)
    requires
        w.received <= now,
    ensures
        alive(nodes, now, cutoff).contains(w) <==> nodes.contains(w) && now < w.received + cutoff,
    decreases nodes.len(),
{
    if nodes.len() > 0 {
        let head = nodes.drop_last();
        law_silent_nodes_are_forgotten(head, now, cutoff, w);
        lemma_contains_last(nodes, w);
        let r = alive(nodes, now, cutoff);
        if r.len() > alive(head, now, cutoff).len() {
            assert(r.drop_last() =~= alive(head, now, cutoff));
            lemma_contains_last(r, w);
        }
    }
}

// ---------------------------------------------------------------------------
// Summaries
// ---------------------------------------------------------------------------

proof fn lemma_members_keep(nodes: Seq<NodeView>, w: NodeView, t: (u64, u64), s: int)
    requires
        in_node_order(nodes),
        s != shard_of(w.node),
    ensures
        members(stored(nodes, w), t, s) == members(nodes, t, s),
    decreases nodes.len(),
{
    reveal_with_fuel(members, 2);
    let r = stored(nodes, w);
    if nodes.len() == 0 {
        assert(r.drop_last() =~= nodes);
    } else {
        lemma_order_drop_last(nodes);
        if nodes.last().node == w.node {
            assert(r.drop_last() =~= nodes.drop_last());
        } else if text_before(nodes.last().node, w.node) {
            assert(r.drop_last() =~= nodes);
        } else {
            lemma_members_keep(nodes.drop_last(), w, t, s);
            assert(r.drop_last() =~= stored(nodes.drop_last(), w));
        }
    }
}

/// A summary that is not made anew still stands for the same windows: where a
/// push changes which tokens belong to a summary, that summary is made anew.
pub proof fn law_changed_summaries_are_made_anew(q: QueryView, w: NodeView, s: int)
    requires
        is_sound(q),
        0 <= s < MERGE_CACHE_SHARDS,
    ensures
        ({
            let (r, shards) = query_stored(q, w);
            &&& r.query == q.query
            &&& r.nodes == stored(q.nodes, w)
            &&& shards matches Some(m) ==> {
                &&& m.len() == MERGE_CACHE_SHARDS
                &&& r.target == selected(r.nodes)
                &&& m[s] ==> r.shard_nodes[s] == 0
                &&& !m[s] ==> r.target == q.target && r.shard_nodes[s] == q.shard_nodes[s]
                    && members(r.nodes, r.target->0, s) == members(q.nodes, q.target->0, s)
            }
        }),
{
    let (r, shards) = query_stored(q, w);
    if shards is Some {
        let m = shards->0;
        if !m[s] {
            lemma_members_keep(q.nodes, w, q.target->0, s);
        }
    }
}

// ---------------------------------------------------------------------------
// What is reported
// ---------------------------------------------------------------------------

/// What is reported of a merge: as many nodes are known as have a window, as
/// many are merged as the summaries count, and it ends when the merged window
/// does.
pub proof fn law_merges_report_their_nodes(
    data: Seq<QueryView>,
    queries: Seq<Seq<char>>,
    i: int,
)
    requires
        0 <= i < merges(data, queries).len(),
    ensures
        ({
            let m = merges(data, queries)[i];
            &&& queries.contains(m.query_name)
            &&& exists|k: int|
                0 <= k < data.len() && (#[trigger] data[k]).query == m.query_name
                    && m.nodes_known == data[k].nodes.len() && m.nodes_merged == sum(
                    data[k].shard_nodes,
                ) && data[k].target is Some && m.window_end_nanos == (data[k].target->0).1
        }),
    decreases queries.len(),
{
    if queries.len() > 0 {
        let before = merges(data, queries.drop_last());
        let m = merges(data, queries)[i];
        if i < before.len() {
            law_merges_report_their_nodes(data, queries.drop_last(), i);
            assert(before[i] == m);
            let j = choose|j: int|
                0 <= j < queries.drop_last().len() && queries.drop_last()[j] == m.query_name;
            assert(queries[j] == m.query_name);
        } else {
            assert(queries[queries.len() - 1] == m.query_name);
            lemma_query_found(data, queries.last());
        }
    }
}

proof fn lemma_query_found(data: Seq<QueryView>, query: Seq<char>)
    ensures
        query_of(data, query) matches Some(q) ==> q.query == query && data.contains(q),
        query_of(data, query) is None ==> forall|i: int|
            0 <= i < data.len() ==> (#[trigger] data[i]).query != query,
    decreases data.len(),
{
    if data.len() > 0 {
        let rest = data.drop_first();
        if data[0].query == query {
            assert(data.contains(data[0]));
        } else {
            lemma_query_found(rest, query);
            if query_of(rest, query) is Some {
                let q = query_of(rest, query)->0;
                let j = choose|j: int| 0 <= j < rest.len() && rest[j] == q;
                assert(data[j + 1] == q);
            } else {
                assert forall|i: int| 0 <= i < data.len() implies (#[trigger] data[i]).query
                    != query by {
                    if i > 0 {
                        assert(rest[i - 1] == data[i]);
                    }
                }
            }
        }
    }
}

/// Every query that has a merged window is reported.
pub proof fn law_every_merged_query_is_reported(
    data: Seq<QueryView>,
    queries: Seq<Seq<char>>,
    j: int,
    k: int,
)
    requires
        0 <= j < queries.len(),
        0 <= k < data.len(),
        data[k].query == queries[j],
        forall|i: int| 0 <= i < data.len() ==> (#[trigger] data[i]).target is Some,
    ensures
        exists|i: int|
            0 <= i < merges(data, queries).len() && (#[trigger] merges(data, queries)[i]).query_name
                == queries[j],
    decreases queries.len(),
{
    let all = merges(data, queries);
    let before = merges(data, queries.drop_last());
    if j == queries.len() - 1 {
        lemma_query_found(data, queries[j]);
        assert(query_of(data, queries[j]) is Some);
        let q = query_of(data, queries[j])->0;
        let i = choose|i: int| 0 <= i < data.len() && data[i] == q;
        assert(data[i].target is Some);
        assert(all[all.len() - 1].query_name == queries[j]);
    } else {
        law_every_merged_query_is_reported(data, queries.drop_last(), j, k);
        let i = choose|i: int|
            0 <= i < before.len() && (#[trigger] before[i]).query_name == queries[j];
        assert(all[i] == before[i]);
    }
}

// ---------------------------------------------------------------------------
// Queries and nodes
// ---------------------------------------------------------------------------

proof fn lemma_query_contains_last(s: Seq<QueryView>, x: QueryView)
    requires
        s.len() > 0,
    ensures
        s.contains(x) <==> s.drop_last().contains(x) || s.last() == x,
{
    if s.contains(x) {
        let i = choose|i: int| 0 <= i < s.len() && s[i] == x;
        if i < s.len() - 1 {
            assert(s.drop_last()[i] == x);
        }
    }
    if s.drop_last().contains(x) {
        let i = choose|i: int| 0 <= i < s.drop_last().len() && s.drop_last()[i] == x;
        assert(s[i] == x);
    }
    assert(s[s.len() - 1] == s.last());
}

/// A window is stored under its query, and every other query stays as it was.
pub proof fn law_a_push_changes_only_its_query(
    data: Seq<QueryView>,
    query: Seq<char>,
    w: NodeView,
    x: QueryView,
)
    requires
        in_query_order(data),
    ensures
        x.query != query ==> (data_stored(data, query, w).0.contains(x) <==> data.contains(x)),
        x.query == query && data.contains(x) ==> data_stored(data, query, w).0.contains(
            query_stored(x, w).0,
        ),
        (forall|i: int| 0 <= i < data.len() ==> (#[trigger] data[i]).query != query) ==> data_stored(
            data,
            query,
            w,
        ).0.contains(query_stored(empty_query(query), w).0),
    decreases data.len(),
{
    let r = data_stored(data, query, w).0;
    let fresh = query_stored(empty_query(query), w).0;
    assert(fresh.query == query);
    if data.len() == 0 {
        assert(r[0] == fresh);
        lemma_query_contains_last(r, x);
        lemma_query_contains_last(r, fresh);
        assert(r.drop_last() =~= data);
    } else {
        let head = data.drop_last();
        let last = data.last();
        let n = data.len() - 1;
        assert(data[n] == last);
        assert forall|i: int| 0 <= i < n implies (#[trigger] data[i]).query != last.query by {
            assert(text_before(data[i].query, data[n].query));
            lemma_text_irreflexive(last.query);
        }
        lemma_query_contains_last(data, x);
        if text_before(last.query, query) {
            assert(r.drop_last() =~= data);
            lemma_query_contains_last(r, x);
            lemma_query_contains_last(r, fresh);
            if x.query == query && data.contains(x) {
                let i = choose|i: int| 0 <= i < data.len() && data[i] == x;
                if i < n {
                    assert(text_before(data[i].query, data[n].query));
                    crate::names::lemma_text_transitive(data[i].query, last.query, query);
                }
                lemma_text_irreflexive(query);
            }
        } else if last.query == query {
            assert(r.drop_last() =~= head);
            lemma_query_contains_last(r, x);
            lemma_query_contains_last(r, query_stored(x, w).0);
            assert(query_stored(last, w).0.query == query);
            if head.contains(x) {
                let i = choose|i: int| 0 <= i < head.len() && head[i] == x;
                assert(data[i] == x);
            }
        } else {
            assert(in_query_order(head)) by {
                assert forall|i: int, j: int| 0 <= i < j < head.len() implies text_before(
                    (#[trigger] head[i]).query,
                    (#[trigger] head[j]).query,
                ) by {
                    assert(head[i] == data[i] && head[j] == data[j]);
                }
                assert forall|i: int| 0 <= i < head.len() implies in_node_order(
                    (#[trigger] head[i]).nodes,
                ) by {
                    assert(head[i] == data[i]);
                }
            }
            law_a_push_changes_only_its_query(head, query, w, x);
            assert(r.drop_last() =~= data_stored(head, query, w).0);
            lemma_query_contains_last(r, x);
            lemma_query_contains_last(r, fresh);
            lemma_query_contains_last(r, query_stored(x, w).0);
            if forall|i: int| 0 <= i < data.len() ==> (#[trigger] data[i]).query != query {
                assert forall|i: int| 0 <= i < head.len() implies (#[trigger] head[i]).query
                    != query by {
                    assert(head[i] == data[i]);
                }
            }
        }
    }
}

/// The gateway counts every node once, however many queries it has windows of.
pub proof fn law_nodes_are_counted_once(data: Seq<QueryView>)
    ensures
        Set::new(|n: Seq<char>| knows(data, n)).finite(),
        node_count(data) == Set::new(|n: Seq<char>| knows(data, n)).len(),
{
    let names = all_node_names(data);
    let sorted = sorted_names(names);
    law_sorted_names(names);
    lemma_ascending_distinct(sorted);
    sorted.unique_seq_to_set();
    vstd::seq_lib::seq_to_set_is_finite(sorted);
    assert forall|n: Seq<char>| sorted.to_set().contains(n) <==> knows(data, n) by {
        lemma_all_node_names(data, n);
        assert(sorted.contains(n) <==> names.contains(n));
    }
    assert(sorted.to_set() =~= Set::new(|n: Seq<char>| knows(data, n)));
}

/// A node is turned away if and only if it is new and there is no room left,
/// counted after the silent nodes have been forgotten. Then nothing of it is
/// taken; otherwise every valid window is.
pub proof fn law_only_new_nodes_are_turned_away(
    data: Seq<QueryView>,
    max_nodes: nat,
    cutoff: u64,
    node: Seq<char>,
    pushes: Seq<QueryPush>,
    now: u64,
)
    ensures
        ({
            let a = applied(data, max_nodes, cutoff, node, pushes, now);
            let left = evicted(data, now, cutoff);
            let valid = valid_of(pushes);
            &&& a.turned_away <==> valid.len() > 0 && !knows(left, node) && Set::new(
                |n: Seq<char>| knows(left, n),
            ).len() >= max_nodes
            &&& a.turned_away ==> a.accepted == 0 && a.data == left
            &&& !a.turned_away ==> a.accepted == valid.len()
            &&& !a.turned_away && valid.len() > 0 ==> a.data == all_stored(left, node, now, valid)
            &&& valid.len() == 0 ==> a.data == data && a.rebuilds.len() == 0
        }),
{
    law_nodes_are_counted_once(evicted(data, now, cutoff));
}

/// The counters of a push, as long as they do not wrap: one push, and every
/// query of it either accepted or refused.
pub proof fn law_pushes_are_counted(c: GatewayCounters, a: Applied)
    requires
        c.pushes_total < u64::MAX,
        c.snapshots_accepted + a.accepted <= u64::MAX,
        c.snapshots_rejected + a.rejected.len() <= u64::MAX,
        c.node_admission_rejections < u64::MAX,
    ensures
        counted(c, a).pushes_total == c.pushes_total + 1,
        counted(c, a).snapshots_accepted == c.snapshots_accepted + a.accepted,
        counted(c, a).snapshots_rejected == c.snapshots_rejected + a.rejected.len(),
        counted(c, a).node_admission_rejections == c.node_admission_rejections + if a.turned_away {
            1int
        } else {
            0
        },
        counted(c, a).body_budget_rejections == c.body_budget_rejections,
{
}

/// The windows that come in are those of the valid pushes, each with its own
/// query, bounds and token.
pub proof fn law_valid_pushes_come_in(pushes: Seq<QueryPush>, i: int)
    requires
        0 <= i < pushes.len(),
    ensures
        pushes[i].outcome matches PushOutcome::Valid { start, end, token } ==> valid_of(
            pushes,
        ).contains(Incoming { query: pushes[i].query@, start, end, token }),
        valid_of(pushes).len() <= pushes.len(),
    decreases pushes.len(),
{
    let all = valid_of(pushes);
    let before = valid_of(pushes.drop_last());
    if pushes.len() > 1 {
        law_valid_pushes_come_in(
            pushes.drop_last(),
            if i < pushes.len() - 1 {
                i
            } else {
                0
            },
        );
    }
    if pushes[i].outcome is Valid {
        let x = Incoming {
            query: pushes[i].query@,
            start: pushes[i].outcome->start,
            end: pushes[i].outcome->end,
            token: pushes[i].outcome->token,
        };
        if i == pushes.len() - 1 {
            assert(all[all.len() - 1] == x);
        } else {
            assert(pushes.drop_last()[i] == pushes[i]);
            let k = choose|k: int| 0 <= k < before.len() && before[k] == x;
            assert(all[k] == x);
        }
    }
}

} // verus!
