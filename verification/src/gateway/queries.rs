//! The windows of all queries: which nodes are forgotten, what is stored, and
//! what has to be merged anew.

use vstd::prelude::*;
use vstd::string::*;

use crate::gateway::windows::{
    alive, all_shards, flags, forget_stale, in_node_order, is_selected, is_stale, kept, latest_end,
    law_a_window_is_selected, law_forgetting_is_exact, law_selected_window_is_unique,
    law_storing_keeps_node_order, losing, members, merge_shard, no_shards, node_views, preferred,
    replaces, selected_window, shard_of, store_window, stored, votes, NodeView, NodeWindow,
    MERGE_CACHE_SHARDS,
};
use crate::names::{lemma_text_irreflexive, lemma_text_total, lemma_text_transitive, text_less};
use crate::text::{same_text, text_before};

verus! {

/// The windows of one query.
#[derive(Debug)]
pub struct QueryWindows {
    pub query: String,
    pub nodes: Vec<NodeWindow>,
    /// The window that is merged.
    pub target: Option<(u64, u64)>,
    /// How many nodes each summary holds.
    pub shard_nodes: Vec<usize>,
}

/// The content of [`QueryWindows`].
#[verifier::ext_equal]
pub ghost struct QueryView {
    pub query: Seq<char>,
    pub nodes: Seq<NodeView>,
    pub target: Option<(u64, u64)>,
    pub shard_nodes: Seq<usize>,
}

impl View for QueryWindows {
    type V = QueryView;

    open spec fn view(&self) -> QueryView {
        QueryView {
            query: self.query@,
            nodes: node_views(self.nodes@),
            target: self.target,
            shard_nodes: self.shard_nodes@,
        }
    }
}

pub open spec fn query_views(v: Seq<QueryWindows>) -> Seq<QueryView> {
    v.map_values(|q: QueryWindows| q@)
}

/// The window that is merged, if there is one.
pub open spec fn selected(nodes: Seq<NodeView>) -> Option<(u64, u64)> {
    if nodes.len() == 0 {
        None
    } else {
        Some(choose|w: (u64, u64)| is_selected(nodes, w))
    }
}

fn select(nodes: &Vec<NodeWindow>) -> (r: Option<(u64, u64)>)
    ensures
        r == selected(node_views(nodes@)),
{
    let r = selected_window(nodes);
    proof {
        if r is Some {
            let all = node_views(nodes@);
            law_selected_window_is_unique(
                all,
                r->0,
                choose|w: (u64, u64)| is_selected(all, w),
            );
        }
    }
    r
}

pub open spec fn no_counts() -> Seq<usize> {
    Seq::new(MERGE_CACHE_SHARDS as nat, |i: int| 0usize)
}

/// The counts without those of marked summaries.
pub open spec fn cleared(counts: Seq<usize>, shards: Seq<bool>) -> Seq<usize> {
    Seq::new(
        counts.len(),
        |i: int|
            if shards[i] {
                0usize
            } else {
                counts[i]
            },
    )
}

/// A query after some of its windows have changed: where another window is
/// merged from now on, all summaries have to be made anew, else those that
/// changed. A summary that has to be made anew holds no node until it is.
pub open spec fn refreshed(q: QueryView, shards: Seq<bool>) -> (QueryView, Seq<bool>) {
    let target = selected(q.nodes);
    if q.target == target && q.shard_nodes.len() == MERGE_CACHE_SHARDS {
        (QueryView { shard_nodes: cleared(q.shard_nodes, shards), ..q }, shards)
    } else {
        (QueryView { target, shard_nodes: no_counts(), ..q }, all_shards())
    }
}

impl QueryWindows {
    /// Pick the window that is merged after some windows have changed. Says
    /// which summaries have to be made anew.
    fn refresh(&mut self, shards: Vec<bool>) -> (r: Vec<bool>)
        requires
            shards@.len() == MERGE_CACHE_SHARDS,
        ensures
            (final(self)@, r@) == refreshed(old(self)@, shards@),
    {
        let target = select(&self.nodes);
        if self.target == target && self.shard_nodes.len() == MERGE_CACHE_SHARDS {
            let ghost counts = self.shard_nodes@;
            let mut i: usize = 0;
            while i < MERGE_CACHE_SHARDS
                invariant
                    i <= MERGE_CACHE_SHARDS,
                    shards@.len() == MERGE_CACHE_SHARDS,
                    counts.len() == MERGE_CACHE_SHARDS,
                    self.shard_nodes@.len() == MERGE_CACHE_SHARDS,
                    self.query == old(self).query,
                    self.nodes == old(self).nodes,
                    self.target == old(self).target,
                    forall|j: int| 0 <= j < i ==> self.shard_nodes@[j] == cleared(counts, shards@)[j],
                    forall|j: int| i <= j < counts.len() ==> self.shard_nodes@[j] == counts[j],
                decreases MERGE_CACHE_SHARDS - i,
            {
                if shards[i] {
                    self.shard_nodes.set(i, 0);
                }
                i += 1;
            }
            assert(self.shard_nodes@ =~= cleared(counts, shards@));
            return shards;
        }
        let mut counts: Vec<usize> = Vec::new();
        let mut i: usize = 0;
        while i < MERGE_CACHE_SHARDS
            invariant
                i <= MERGE_CACHE_SHARDS,
                counts@.len() == i,
                forall|j: int| 0 <= j < i ==> counts@[j] == 0,
            decreases MERGE_CACHE_SHARDS - i,
        {
            counts.push(0);
            i += 1;
        }
        assert(counts@ =~= no_counts());
        self.target = target;
        self.shard_nodes = counts;
        flags(true)
    }
}

/// Summaries of a query that have to be made anew.
#[derive(Debug)]
pub struct Rebuild {
    pub query: String,
    pub shards: Vec<bool>,
}

pub open spec fn rebuild_views(v: Seq<Rebuild>) -> Seq<(Seq<char>, Seq<bool>)> {
    v.map_values(|b: Rebuild| (b.query@, b.shards@))
}

/// How many summaries are marked.
pub open spec fn marked(shards: Seq<bool>) -> nat
    decreases shards.len(),
{
    if shards.len() == 0 {
        0
    } else {
        marked(shards.drop_last()) + if shards.last() {
            1nat
        } else {
            0
        }
    }
}

/// How many summaries have to be made anew in all.
pub open spec fn rebuild_count(v: Seq<(Seq<char>, Seq<bool>)>) -> nat
    decreases v.len(),
{
    if v.len() == 0 {
        0
    } else {
        rebuild_count(v.drop_last()) + marked(v.last().1)
    }
}

// ---------------------------------------------------------------------------
// Forgetting nodes
// ---------------------------------------------------------------------------

/// A query without the nodes that have not pushed for `cutoff`, and the
/// summaries to make anew if it lost one and still has another.
pub open spec fn query_evicted(q: QueryView, now: u64, cutoff: u64) -> (
    QueryView,
    Option<Seq<bool>>,
) {
    let left = alive(q.nodes, now, cutoff);
    if left.len() == q.nodes.len() {
        (q, None)
    } else if left.len() == 0 {
        (QueryView { nodes: left, ..q }, None)
    } else {
        let (r, shards) = refreshed(
            QueryView { nodes: left, ..q },
            losing(q.nodes, now, cutoff),
        );
        (r, Some(shards))
    }
}

/// All queries without stale nodes; queries without nodes are dropped.
pub open spec fn evicted(data: Seq<QueryView>, now: u64, cutoff: u64) -> Seq<QueryView>
    decreases data.len(),
{
    if data.len() == 0 {
        Seq::empty()
    } else {
        let before = evicted(data.drop_last(), now, cutoff);
        let q = query_evicted(data.last(), now, cutoff).0;
        if q.nodes.len() == 0 {
            before
        } else {
            before.push(q)
        }
    }
}

/// The summaries to make anew when stale nodes are forgotten.
pub open spec fn eviction_rebuilds(data: Seq<QueryView>, now: u64, cutoff: u64) -> Seq<
    (Seq<char>, Seq<bool>),
>
    decreases data.len(),
{
    if data.len() == 0 {
        Seq::empty()
    } else {
        let before = eviction_rebuilds(data.drop_last(), now, cutoff);
        match query_evicted(data.last(), now, cutoff).1 {
            Some(shards) => before.push((data.last().query, shards)),
            None => before,
        }
    }
}

fn evict_query(q: &mut QueryWindows, now: u64, cutoff: u64) -> (r: Option<Vec<bool>>)
    ensures
        final(q)@ == query_evicted(old(q)@, now, cutoff).0,
        match query_evicted(old(q)@, now, cutoff).1 {
            Some(shards) => r is Some && r->0@ == shards,
            None => r is None,
        },
{
    let left = forget_stale(&q.nodes, now, cutoff);
    proof {
        law_forgetting_is_exact(node_views(q.nodes@), now, cutoff);
    }
    assert(left.nodes@.len() == node_views(left.nodes@).len());
    assert(q.nodes@.len() == node_views(q.nodes@).len());
    if left.nodes.len() == q.nodes.len() {
        return None;
    }
    let empty = left.nodes.len() == 0;
    q.nodes = left.nodes;
    if empty {
        return None;
    }
    Some(q.refresh(left.shards))
}

/// Forget stale nodes of all queries.
pub fn evict(data: Vec<QueryWindows>, now: u64, cutoff: u64) -> (r: (Vec<QueryWindows>, Vec<Rebuild>))
    ensures
        query_views(r.0@) == evicted(query_views(data@), now, cutoff),
        rebuild_views(r.1@) == eviction_rebuilds(query_views(data@), now, cutoff),
{
    let ghost all = query_views(data@);
    let mut from: Vec<QueryWindows> = data;
    let mut left: Vec<QueryWindows> = Vec::new();
    let mut rebuilds: Vec<Rebuild> = Vec::new();
    let ghost mut done: int = 0;
    assert(all.take(0) =~= Seq::<QueryView>::empty());
    assert(query_views(left@) =~= evicted(all.take(0), now, cutoff));
    assert(rebuild_views(rebuilds@) =~= eviction_rebuilds(all.take(0), now, cutoff));
    assert(query_views(from@) =~= all.skip(0));
    while from.len() > 0
        invariant
            0 <= done <= all.len(),
            from@.len() == all.len() - done,
            query_views(from@) == all.skip(done),
            query_views(left@) == evicted(all.take(done), now, cutoff),
            rebuild_views(rebuilds@) == eviction_rebuilds(all.take(done), now, cutoff),
        decreases from@.len(),
    {
        let ghost listed = from@;
        let mut q = from.remove(0);
        let ghost before = q@;
        proof {
            assert(before == query_views(listed)[0]);
            assert(before == all[done]);
            assert(all.take(done + 1).drop_last() =~= all.take(done));
            assert(all.take(done + 1).last() == before);
            assert forall|i: int| 0 <= i < from@.len() implies #[trigger] query_views(from@)[i]
                == all.skip(done + 1)[i] by {
                assert(query_views(listed)[i + 1] == all.skip(done)[i + 1]);
            }
            assert(query_views(from@) =~= all.skip(done + 1));
        }
        let changed = evict_query(&mut q, now, cutoff);
        if let Some(shards) = changed {
            let ghost earlier = rebuilds@;
            let rebuild = Rebuild { query: q.query.as_str().to_owned(), shards };
            rebuilds.push(rebuild);
            assert(rebuild_views(rebuilds@) =~= rebuild_views(earlier).push(
                (before.query, rebuild.shards@),
            ));
        }
        assert(q.nodes@.len() == q@.nodes.len());
        if q.nodes.len() > 0 {
            let ghost earlier = left@;
            let ghost view = q@;
            left.push(q);
            assert(query_views(left@) =~= query_views(earlier).push(view));
        }
        proof {
            done = done + 1;
        }
    }
    assert(all.take(done) =~= all);
    (left, rebuilds)
}

// ---------------------------------------------------------------------------
// Storing windows
// ---------------------------------------------------------------------------

/// One summary.
pub open spec fn one_shard(shard: int) -> Seq<bool> {
    no_shards().update(shard, true)
}

/// A query with a window that comes in.
pub open spec fn query_stored(q: QueryView, w: NodeView) -> (QueryView, Option<Seq<bool>>) {
    let with = QueryView { nodes: stored(q.nodes, w), ..q };
    if replaces(q.nodes, w) {
        let (r, shards) = refreshed(with, one_shard(shard_of(w.node)));
        (r, Some(shards))
    } else {
        (with, None)
    }
}

/// A query that has no windows yet.
pub open spec fn empty_query(query: Seq<char>) -> QueryView {
    QueryView { query, nodes: Seq::empty(), target: None, shard_nodes: Seq::empty() }
}

/// All queries with a window that comes in for one of them.
pub open spec fn data_stored(data: Seq<QueryView>, query: Seq<char>, w: NodeView) -> (
    Seq<QueryView>,
    Option<Seq<bool>>,
)
    decreases data.len(),
{
    if data.len() == 0 || text_before(data.last().query, query) {
        let (q, shards) = query_stored(empty_query(query), w);
        (data.push(q), shards)
    } else if data.last().query == query {
        let (q, shards) = query_stored(data.last(), w);
        (data.drop_last().push(q), shards)
    } else {
        let (before, shards) = data_stored(data.drop_last(), query, w);
        (before.push(data.last()), shards)
    }
}

/// A window that comes in for a query.
pub ghost struct Incoming {
    pub query: Seq<char>,
    pub start: u64,
    pub end: u64,
    pub token: u64,
}

pub open spec fn window_of(node: Seq<char>, now: u64, i: Incoming) -> NodeView {
    NodeView { node, received: now, start: i.start, end: i.end, token: i.token }
}

/// All queries with the windows that come in from a node.
pub open spec fn all_stored(data: Seq<QueryView>, node: Seq<char>, now: u64, valid: Seq<Incoming>) -> Seq<
    QueryView,
>
    decreases valid.len(),
{
    if valid.len() == 0 {
        data
    } else {
        data_stored(
            all_stored(data, node, now, valid.drop_last()),
            valid.last().query,
            window_of(node, now, valid.last()),
        ).0
    }
}

/// The summaries to make anew for the windows that come in from a node.
pub open spec fn store_rebuilds(
    data: Seq<QueryView>,
    node: Seq<char>,
    now: u64,
    valid: Seq<Incoming>,
) -> Seq<(Seq<char>, Seq<bool>)>
    decreases valid.len(),
{
    if valid.len() == 0 {
        Seq::empty()
    } else {
        let before = store_rebuilds(data, node, now, valid.drop_last());
        match data_stored(
            all_stored(data, node, now, valid.drop_last()),
            valid.last().query,
            window_of(node, now, valid.last()),
        ).1 {
            Some(shards) => before.push((valid.last().query, shards)),
            None => before,
        }
    }
}

/// Queries strictly ascend, and the nodes of each do.
pub open spec fn in_query_order(data: Seq<QueryView>) -> bool {
    &&& forall|i: int, j: int|
        0 <= i < j < data.len() ==> text_before(
            (#[trigger] data[i]).query,
            (#[trigger] data[j]).query,
        )
    &&& forall|i: int| 0 <= i < data.len() ==> in_node_order((#[trigger] data[i]).nodes)
}

fn store_in_query(q: &mut QueryWindows, w: NodeWindow) -> (r: Option<Vec<bool>>)
    requires
        in_node_order(old(q)@.nodes),
    ensures
        final(q)@ == query_stored(old(q)@, w@).0,
        match query_stored(old(q)@, w@).1 {
            Some(shards) => r is Some && r->0@ == shards,
            None => r is None,
        },
{
    let shard: usize = merge_shard(w.node.as_str());
    if store_window(&mut q.nodes, w) {
        let mut shards = flags(false);
        shards.set(shard, true);
        Some(q.refresh(shards))
    } else {
        None
    }
}

pub fn store(data: &mut Vec<QueryWindows>, query: &str, w: NodeWindow) -> (r: Option<Vec<bool>>)
    requires
        in_query_order(query_views(old(data)@)),
    ensures
        query_views(final(data)@) == data_stored(query_views(old(data)@), query@, w@).0,
        match data_stored(query_views(old(data)@), query@, w@).1 {
            Some(shards) => r is Some && r->0@ == shards,
            None => r is None,
        },
{
    let ghost before = data@;
    let ghost all = query_views(data@);
    let ghost view = w@;
    let mut at: usize = data.len();
    assert(all.take(at as int) =~= all);
    assert(all.skip(at as int) =~= Seq::<QueryView>::empty());
    assert(data_stored(all, query@, view).0 =~= data_stored(all.take(at as int), query@, view).0
        + all.skip(at as int));
    while at > 0
        invariant
            at <= data@.len(),
            data@ == before,
            before == old(data)@,
            all == query_views(before),
            view == w@,
            in_query_order(all),
            data_stored(all, query@, view).0 == data_stored(all.take(at as int), query@, view).0
                + all.skip(at as int),
            data_stored(all, query@, view).1 == data_stored(all.take(at as int), query@, view).1,
        ensures
            at <= data@.len(),
            data@ == before,
            at > 0 ==> text_before(all[at - 1].query, query@),
            data_stored(all, query@, view).0 == data_stored(all.take(at as int), query@, view).0
                + all.skip(at as int),
            data_stored(all, query@, view).1 == data_stored(all.take(at as int), query@, view).1,
        decreases at,
    {
        let ghost t = all.take(at as int);
        assert(t.last() == all[at - 1]);
        assert(t.drop_last() =~= all.take(at - 1));
        if text_less(data[at - 1].query.as_str(), query) {
            break;
        }
        if same_text(data[at - 1].query.as_str(), query) {
            let mut q = data.remove(at - 1);
            proof {
                assert(q@ == all[at - 1]);
                assert(in_node_order(all[at - 1].nodes));
            }
            let r = store_in_query(&mut q, w);
            let ghost changed = q@;
            data.insert(at - 1, q);
            assert(query_views(data@) =~= all.take(at - 1).push(changed) + all.skip(at as int));
            return r;
        }
        proof {
            let inner = data_stored(all.take(at - 1), query@, view);
            assert(inner.0.push(all[at - 1]) + all.skip(at as int) =~= inner.0 + all.skip(at - 1));
        }
        at = at - 1;
    }
    let mut q = QueryWindows {
        query: query.to_owned(),
        nodes: Vec::new(),
        target: None,
        shard_nodes: Vec::new(),
    };
    assert(q@ =~= empty_query(query@));
    let r = store_in_query(&mut q, w);
    let ghost changed = q@;
    proof {
        let t = all.take(at as int);
        if at > 0 {
            assert(t.last() == all[at - 1]);
        }
        assert(data_stored(t, query@, view).0 == t.push(changed));
    }
    data.insert(at, q);
    assert(query_views(data@) =~= all.take(at as int).push(changed) + all.skip(at as int));
    r
}

// ---------------------------------------------------------------------------
// The order is kept
// ---------------------------------------------------------------------------

pub proof fn lemma_evicted_in_order(data: Seq<QueryView>, now: u64, cutoff: u64)
    requires
        in_query_order(data),
    ensures
        in_query_order(evicted(data, now, cutoff)),
        forall|i: int|
            0 <= i < evicted(data, now, cutoff).len() ==> exists|k: int|
                0 <= k < data.len() && #[trigger] evicted(data, now, cutoff)[i].query
                    == #[trigger] data[k].query,
    decreases data.len(),
{
    let r = evicted(data, now, cutoff);
    if data.len() > 0 {
        let head = data.drop_last();
        assert forall|i: int, j: int| 0 <= i < j < head.len() implies text_before(
            (#[trigger] head[i]).query,
            (#[trigger] head[j]).query,
        ) by {
            assert(head[i] == data[i] && head[j] == data[j]);
        }
        assert forall|i: int| 0 <= i < head.len() implies in_node_order(
            (#[trigger] head[i]).nodes,
        ) by {
            assert(head[i] == data[i]);
        }
        lemma_evicted_in_order(head, now, cutoff);
        let h = evicted(head, now, cutoff);
        let last = data[data.len() - 1];
        law_forgetting_is_exact(last.nodes, now, cutoff);
        assert(in_node_order(last.nodes));
        let q = query_evicted(last, now, cutoff).0;
        assert forall|i: int| 0 <= i < r.len() implies exists|k: int|
            0 <= k < data.len() && #[trigger] r[i].query == #[trigger] data[k].query by {
            if i < h.len() {
                assert(r[i] == h[i]);
                let k = choose|k: int|
                    0 <= k < head.len() && #[trigger] h[i].query == #[trigger] head[k].query;
                assert(data[k].query == r[i].query);
            } else {
                assert(r[i].query == data[data.len() - 1].query);
            }
        }
        assert forall|i: int, j: int| 0 <= i < j < r.len() implies text_before(
            (#[trigger] r[i]).query,
            (#[trigger] r[j]).query,
        ) by {
            assert(r[i] == h[i]);
            if j < h.len() {
                assert(r[j] == h[j]);
            } else {
                let k = choose|k: int|
                    0 <= k < head.len() && #[trigger] h[i].query == #[trigger] head[k].query;
                assert(data[k].query == r[i].query);
                assert(text_before(data[k].query, last.query));
            }
        }
        assert forall|i: int| 0 <= i < r.len() implies in_node_order((#[trigger] r[i]).nodes) by {
            if i < h.len() {
                assert(r[i] == h[i]);
            }
        }
    }
}

pub proof fn lemma_stored_in_order(data: Seq<QueryView>, query: Seq<char>, w: NodeView)
    requires
        in_query_order(data),
    ensures
        in_query_order(data_stored(data, query, w).0),
        forall|i: int|
            0 <= i < data_stored(data, query, w).0.len() ==> {
                ||| #[trigger] data_stored(data, query, w).0[i].query == query
                ||| has_query(data, data_stored(data, query, w).0[i].query)
            },
    decreases data.len(),
{
    let r = data_stored(data, query, w).0;
    if data.len() == 0 || text_before(data.last().query, query) {
        let q = query_stored(empty_query(query), w).0;
        law_storing_keeps_node_order(Seq::<NodeView>::empty(), w);
        assert(r =~= data.push(q));
        assert forall|i: int, j: int| 0 <= i < j < r.len() implies text_before(
            (#[trigger] r[i]).query,
            (#[trigger] r[j]).query,
        ) by {
            assert(r[i] == data[i]);
            if j < data.len() {
                assert(r[j] == data[j]);
            } else if i < data.len() - 1 {
                assert(text_before(data[i].query, data[data.len() - 1].query));
                lemma_text_transitive(data[i].query, data.last().query, query);
            }
        }
        assert forall|i: int| 0 <= i < r.len() implies in_node_order((#[trigger] r[i]).nodes) by {
            if i < data.len() {
                assert(r[i] == data[i]);
            }
        }
        assert forall|i: int| 0 <= i < r.len() implies #[trigger] r[i].query == query || has_query(
            data,
            r[i].query,
        ) by {
            if i < data.len() {
                assert(data[i].query == r[i].query);
            }
        }
    } else if data.last().query == query {
        let q = query_stored(data.last(), w).0;
        assert(in_node_order(data[data.len() - 1].nodes));
        law_storing_keeps_node_order(data.last().nodes, w);
        assert forall|i: int, j: int| 0 <= i < j < r.len() implies text_before(
            (#[trigger] r[i]).query,
            (#[trigger] r[j]).query,
        ) by {
            assert(r[i].query == data[i].query && r[j].query == data[j].query);
        }
        assert forall|i: int| 0 <= i < r.len() implies in_node_order((#[trigger] r[i]).nodes) by {
            if i < data.len() - 1 {
                assert(r[i] == data[i]);
            }
        }
        assert forall|i: int| 0 <= i < r.len() implies #[trigger] r[i].query == query || has_query(
            data,
            r[i].query,
        ) by {
            assert(data[i].query == r[i].query);
        }
    } else {
        let head = data.drop_last();
        assert forall|i: int, j: int| 0 <= i < j < head.len() implies text_before(
            (#[trigger] head[i]).query,
            (#[trigger] head[j]).query,
        ) by {
            assert(head[i] == data[i] && head[j] == data[j]);
        }
        assert forall|i: int| 0 <= i < head.len() implies in_node_order(
            (#[trigger] head[i]).nodes,
        ) by {
            assert(head[i] == data[i]);
        }
        lemma_stored_in_order(head, query, w);
        lemma_text_total(data.last().query, query);
        let h = data_stored(head, query, w).0;
        let last = data[data.len() - 1];
        assert(r =~= h.push(last));
        assert forall|i: int, j: int| 0 <= i < j < r.len() implies text_before(
            (#[trigger] r[i]).query,
            (#[trigger] r[j]).query,
        ) by {
            assert(r[i] == h[i]);
            if j < h.len() {
                assert(r[j] == h[j]);
            } else if h[i].query != query {
                assert(has_query(head, h[i].query));
                let k = choose|k: int| 0 <= k < head.len() && (#[trigger] head[k]).query
                    == h[i].query;
                assert(data[k] == head[k]);
                assert(text_before(data[k].query, last.query));
            }
        }
        assert forall|i: int| 0 <= i < r.len() implies in_node_order((#[trigger] r[i]).nodes) by {
            if i < h.len() {
                assert(r[i] == h[i]);
            }
        }
        assert forall|i: int| 0 <= i < r.len() implies #[trigger] r[i].query == query || has_query(
            data,
            r[i].query,
        ) by {
            if i < h.len() {
                assert(r[i] == h[i]);
                if h[i].query != query {
                    let k = choose|k: int| 0 <= k < head.len() && (#[trigger] head[k]).query
                        == h[i].query;
                    assert(data[k].query == h[i].query);
                }
            } else {
                assert(data[data.len() - 1].query == r[i].query);
            }
        }
    }
}

/// Whether a query has windows.
pub open spec fn has_query(data: Seq<QueryView>, query: Seq<char>) -> bool {
    exists|k: int| 0 <= k < data.len() && (#[trigger] data[k]).query == query
}

// ---------------------------------------------------------------------------
// Counts of merged nodes
// ---------------------------------------------------------------------------

/// A query whose state is in order: it has nodes, the window that is merged is
/// the selected one, and no summary counts more nodes than belong to it.
pub open spec fn is_sound(q: QueryView) -> bool {
    &&& q.nodes.len() > 0
    &&& in_node_order(q.nodes)
    &&& q.target == selected(q.nodes)
    &&& q.target is Some
    &&& q.shard_nodes.len() == MERGE_CACHE_SHARDS
    &&& forall|s: int|
        0 <= s < MERGE_CACHE_SHARDS ==> (#[trigger] q.shard_nodes[s]) <= members(
            q.nodes,
            q.target->0,
            s,
        ).len()
}

proof fn lemma_members_alive(nodes: Seq<NodeView>, now: u64, cutoff: u64, t: (u64, u64), s: int)
    requires
        0 <= s < MERGE_CACHE_SHARDS,
    ensures
        losing(nodes, now, cutoff).len() == MERGE_CACHE_SHARDS,
        !losing(nodes, now, cutoff)[s] ==> members(alive(nodes, now, cutoff), t, s) == members(
            nodes,
            t,
            s,
        ),
    decreases nodes.len(),
{
    if nodes.len() > 0 {
        let head = nodes.drop_last();
        lemma_members_alive(head, now, cutoff, t, s);
        let w = nodes.last();
        if is_stale(w, now, cutoff) {
        } else {
            let r = alive(nodes, now, cutoff);
            assert(r.drop_last() =~= alive(head, now, cutoff));
            assert(r.last() == w);
        }
    }
}

proof fn lemma_members_stored(nodes: Seq<NodeView>, w: NodeView, t: (u64, u64), s: int)
    ensures
        s != shard_of(w.node) ==> members(stored(nodes, w), t, s).len() == members(nodes, t, s).len(),
        !replaces(nodes, w) && in_node_order(nodes) ==> members(stored(nodes, w), t, s).len()
            == members(nodes, t, s).len(),
    decreases nodes.len(),
{
    let r = stored(nodes, w);
    if nodes.len() == 0 {
        assert(r.drop_last() =~= Seq::<NodeView>::empty());
        assert(r.last() == w);
        assert(nodes =~= Seq::<NodeView>::empty());
        assert(replaces(nodes, w));
    } else if nodes.last().node == w.node {
        assert(r.drop_last() =~= nodes.drop_last());
        assert(r.last() == kept(nodes.last(), w));
        if !replaces(nodes, w) && in_node_order(nodes) {
            let i = choose|i: int|
                0 <= i < nodes.len() && (#[trigger] nodes[i]).node == w.node && nodes[i].end
                    > w.end;
            if i < nodes.len() - 1 {
                assert(text_before(nodes[i].node, nodes[nodes.len() - 1].node));
                lemma_text_irreflexive(w.node);
            }
        }
    } else if text_before(nodes.last().node, w.node) {
        assert(r.drop_last() =~= nodes);
        assert(r.last() == w);
        if !replaces(nodes, w) && in_node_order(nodes) {
            let i = choose|i: int|
                0 <= i < nodes.len() && (#[trigger] nodes[i]).node == w.node && nodes[i].end
                    > w.end;
            if i < nodes.len() - 1 {
                assert(text_before(nodes[i].node, nodes[nodes.len() - 1].node));
                lemma_text_transitive(w.node, nodes.last().node, w.node);
            }
            lemma_text_irreflexive(w.node);
        }
    } else {
        let head = nodes.drop_last();
        lemma_members_stored(head, w, t, s);
        assert(r.drop_last() =~= stored(head, w));
        assert(r.last() == nodes.last());
        if !replaces(nodes, w) && in_node_order(nodes) {
            let i = choose|i: int|
                0 <= i < nodes.len() && (#[trigger] nodes[i]).node == w.node && nodes[i].end
                    > w.end;
            assert(i < nodes.len() - 1);
            assert(head[i] == nodes[i]);
            assert(!replaces(head, w));
            assert forall|a: int, b: int| 0 <= a < b < head.len() implies text_before(
                (#[trigger] head[a]).node,
                (#[trigger] head[b]).node,
            ) by {
                assert(head[a] == nodes[a] && head[b] == nodes[b]);
            }
        }
    }
}

proof fn lemma_stored_len(nodes: Seq<NodeView>, w: NodeView)
    ensures
        stored(nodes, w).len() > 0,
        stored(nodes, w).len() >= nodes.len(),
    decreases nodes.len(),
{
    if nodes.len() > 0 && nodes.last().node != w.node && !text_before(nodes.last().node, w.node) {
        lemma_stored_len(nodes.drop_last(), w);
    }
}

/// A window that only shows that its node is alive leaves the others, and what
/// is merged, as they are.
proof fn lemma_unreplaced(nodes: Seq<NodeView>, w: NodeView)
    requires
        in_node_order(nodes),
        !replaces(nodes, w),
    ensures
        stored(nodes, w).len() == nodes.len(),
        forall|i: int|
            0 <= i < nodes.len() ==> (#[trigger] stored(nodes, w)[i]).start == nodes[i].start
                && stored(nodes, w)[i].end == nodes[i].end && stored(nodes, w)[i].node
                == nodes[i].node && stored(nodes, w)[i].token == nodes[i].token,
    decreases nodes.len(),
{
    let i = choose|i: int|
        0 <= i < nodes.len() && (#[trigger] nodes[i]).node == w.node && nodes[i].end > w.end;
    let last = nodes[nodes.len() - 1];
    if last.node == w.node {
        if i < nodes.len() - 1 {
            assert(text_before(nodes[i].node, last.node));
            lemma_text_irreflexive(w.node);
        }
    } else if text_before(last.node, w.node) {
        assert(text_before(nodes[i].node, last.node));
        lemma_text_transitive(w.node, last.node, w.node);
        lemma_text_irreflexive(w.node);
    } else {
        let head = nodes.drop_last();
        assert(head[i] == nodes[i]);
        assert forall|a: int, b: int| 0 <= a < b < head.len() implies text_before(
            (#[trigger] head[a]).node,
            (#[trigger] head[b]).node,
        ) by {
            assert(head[a] == nodes[a] && head[b] == nodes[b]);
        }
        lemma_unreplaced(head, w);
        let h = stored(head, w);
        let r = stored(nodes, w);
        assert forall|k: int| 0 <= k < nodes.len() implies (#[trigger] r[k]).start
            == nodes[k].start && r[k].end == nodes[k].end && r[k].node == nodes[k].node
            && r[k].token == nodes[k].token by {
            if k < head.len() {
                assert(r[k] == h[k]);
                assert(head[k] == nodes[k]);
            }
        }
    }
}

/// Which window is selected depends on the bounds of the windows alone.
proof fn lemma_selected_by_bounds(a: Seq<NodeView>, b: Seq<NodeView>)
    requires
        a.len() == b.len(),
        forall|i: int|
            0 <= i < a.len() ==> (#[trigger] a[i]).start == b[i].start && a[i].end == b[i].end,
    ensures
        selected(a) == selected(b),
{
    assert forall|w: (u64, u64)| is_selected(a, w) <==> is_selected(b, w) by {
        lemma_latest_by_bounds(a, b);
        assert forall|s: u64, e: u64| votes(a, s, e) == votes(b, s, e) by {
            lemma_votes_by_bounds(a, b, s, e);
        }
        if is_selected(a, w) {
            assert forall|s: u64| votes(b, s, w.1) > 0 implies #[trigger] preferred(
                b,
                w.1,
                w.0,
                s,
            ) by {
                assert(preferred(a, w.1, w.0, s));
            }
        }
        if is_selected(b, w) {
            assert forall|s: u64| votes(a, s, w.1) > 0 implies #[trigger] preferred(
                a,
                w.1,
                w.0,
                s,
            ) by {
                assert(preferred(b, w.1, w.0, s));
            }
        }
    }
    if a.len() > 0 {
        law_a_window_is_selected(a);
        law_a_window_is_selected(b);
        law_selected_window_is_unique(
            a,
            choose|w: (u64, u64)| is_selected(a, w),
            choose|w: (u64, u64)| is_selected(b, w),
        );
    }
}

proof fn lemma_latest_by_bounds(a: Seq<NodeView>, b: Seq<NodeView>)
    requires
        a.len() == b.len(),
        forall|i: int|
            0 <= i < a.len() ==> (#[trigger] a[i]).start == b[i].start && a[i].end == b[i].end,
    ensures
        latest_end(a) == latest_end(b),
    decreases a.len(),
{
    if a.len() > 0 {
        assert(a[a.len() - 1].end == b[b.len() - 1].end);
        assert forall|i: int| 0 <= i < a.drop_last().len() implies (
        #[trigger] a.drop_last()[i]).start == b.drop_last()[i].start && a.drop_last()[i].end
            == b.drop_last()[i].end by {
            assert(a.drop_last()[i] == a[i]);
        }
        lemma_latest_by_bounds(a.drop_last(), b.drop_last());
    }
}

proof fn lemma_votes_by_bounds(a: Seq<NodeView>, b: Seq<NodeView>, s: u64, e: u64)
    requires
        a.len() == b.len(),
        forall|i: int|
            0 <= i < a.len() ==> (#[trigger] a[i]).start == b[i].start && a[i].end == b[i].end,
    ensures
        votes(a, s, e) == votes(b, s, e),
    decreases a.len(),
{
    if a.len() > 0 {
        assert(a[a.len() - 1].end == b[b.len() - 1].end);
        assert(a[a.len() - 1].start == b[b.len() - 1].start);
        assert forall|i: int| 0 <= i < a.drop_last().len() implies (
        #[trigger] a.drop_last()[i]).start == b.drop_last()[i].start && a.drop_last()[i].end
            == b.drop_last()[i].end by {
            assert(a.drop_last()[i] == a[i]);
        }
        lemma_votes_by_bounds(a.drop_last(), b.drop_last(), s, e);
    }
}

/// A query stays in order when stale nodes are forgotten, as long as it has
/// any.
pub proof fn law_eviction_keeps_queries_sound(q: QueryView, now: u64, cutoff: u64)
    requires
        is_sound(q),
        query_evicted(q, now, cutoff).0.nodes.len() > 0,
    ensures
        is_sound(query_evicted(q, now, cutoff).0),
{
    let left = alive(q.nodes, now, cutoff);
    law_forgetting_is_exact(q.nodes, now, cutoff);
    if left.len() != q.nodes.len() {
        let r = query_evicted(q, now, cutoff).0;
        let lost = losing(q.nodes, now, cutoff);
        assert forall|s: int| 0 <= s < MERGE_CACHE_SHARDS implies (#[trigger] r.shard_nodes[s])
            <= members(r.nodes, r.target->0, s).len() by {
            lemma_members_alive(q.nodes, now, cutoff, r.target->0, s);
        }
    }
}

/// A query is in order after a window has been stored in it.
pub proof fn law_storing_keeps_queries_sound(q: QueryView, w: NodeView)
    requires
        is_sound(q) || q == empty_query(q.query),
    ensures
        is_sound(query_stored(q, w).0),
{
    let r = query_stored(q, w).0;
    law_storing_keeps_node_order(q.nodes, w);
    lemma_stored_len(q.nodes, w);
    if q.nodes.len() == 0 {
        assert(replaces(q.nodes, w));
    }
    if replaces(q.nodes, w) {
        assert forall|s: int| 0 <= s < MERGE_CACHE_SHARDS implies (#[trigger] r.shard_nodes[s])
            <= members(r.nodes, r.target->0, s).len() by {
            lemma_members_stored(q.nodes, w, r.target->0, s);
        }
    } else {
        lemma_unreplaced(q.nodes, w);
        lemma_selected_by_bounds(stored(q.nodes, w), q.nodes);
        assert forall|s: int| 0 <= s < MERGE_CACHE_SHARDS implies (#[trigger] r.shard_nodes[s])
            <= members(r.nodes, r.target->0, s).len() by {
            lemma_members_stored(q.nodes, w, r.target->0, s);
        }
    }
}

/// How many windows belong to the first `k` summaries.
pub open spec fn members_upto(nodes: Seq<NodeView>, t: (u64, u64), k: nat) -> nat
    decreases k,
{
    if k == 0 {
        0
    } else {
        members_upto(nodes, t, (k - 1) as nat) + members(nodes, t, k - 1).len()
    }
}

proof fn lemma_members_upto_step(nodes: Seq<NodeView>, t: (u64, u64), k: nat)
    requires
        nodes.len() > 0,
    ensures
        members_upto(nodes, t, k) <= members_upto(nodes.drop_last(), t, k) + if shard_of(
            nodes.last().node,
        ) < k {
            1nat
        } else {
            0
        },
    decreases k,
{
    if k > 0 {
        lemma_members_upto_step(nodes, t, (k - 1) as nat);
    }
}

/// Every window belongs to one summary.
pub proof fn lemma_members_upto(nodes: Seq<NodeView>, t: (u64, u64), k: nat)
    ensures
        members_upto(nodes, t, k) <= nodes.len(),
    decreases nodes.len(), k,
{
    if nodes.len() > 0 {
        lemma_members_upto(nodes.drop_last(), t, k);
        lemma_members_upto_step(nodes, t, k);
    } else if k > 0 {
        lemma_members_upto(nodes, t, (k - 1) as nat);
    }
}

} // verus!
