//! The windows that nodes have pushed for one query, and which of them are
//! merged.

use vstd::prelude::*;
use vstd::string::*;
use vstd::utf8::*;

use crate::hash::{hash64, hash_of};
use crate::names::{
    lemma_text_irreflexive, lemma_text_total, lemma_text_transitive, text_less,
};
use crate::text::{same_text, text_before};

verus! {

/// Summaries that the windows of a query are merged into before they are
/// merged with each other. A push touches one of them.
pub const MERGE_CACHE_SHARDS: usize = 16;

/// The newest window of one node for one query. The sketches of the window
/// are held elsewhere, under a token.
#[derive(Debug)]
pub struct NodeWindow {
    pub node: String,
    /// When the node last pushed.
    pub received: u64,
    pub start: u64,
    pub end: u64,
    pub token: u64,
}

/// The content of a [`NodeWindow`].
pub ghost struct NodeView {
    pub node: Seq<char>,
    pub received: u64,
    pub start: u64,
    pub end: u64,
    pub token: u64,
}

impl View for NodeWindow {
    type V = NodeView;

    open spec fn view(&self) -> NodeView {
        NodeView {
            node: self.node@,
            received: self.received,
            start: self.start,
            end: self.end,
            token: self.token,
        }
    }
}

/// The contents of windows.
pub open spec fn node_views(v: Seq<NodeWindow>) -> Seq<NodeView> {
    v.map_values(|w: NodeWindow| w@)
}

impl NodeWindow {
    /// A copy.
    pub fn copy(&self) -> (r: Self)
        ensures
            r@ == self@,
    {
        NodeWindow {
            node: self.node.as_str().to_owned(),
            received: self.received,
            start: self.start,
            end: self.end,
            token: self.token,
        }
    }
}

/// The summary that a node's windows are merged into.
pub open spec fn shard_of(node: Seq<char>) -> int {
    hash_of(encode_utf8(node), 0) as int % MERGE_CACHE_SHARDS as int
}

/// The summary that a node's windows are merged into.
pub fn merge_shard(node: &str) -> (r: usize)
    ensures
        r == shard_of(node@),
        r < MERGE_CACHE_SHARDS,
{
    (hash64(node.as_bytes(), 0) % (MERGE_CACHE_SHARDS as u64)) as usize
}

// ---------------------------------------------------------------------------
// Storing a window
// ---------------------------------------------------------------------------

/// Names strictly ascend.
pub open spec fn in_node_order(nodes: Seq<NodeView>) -> bool {
    forall|i: int, j: int|
        0 <= i < j < nodes.len() ==> text_before(
            (#[trigger] nodes[i]).node,
            (#[trigger] nodes[j]).node,
        )
}

/// What is kept of a stored window and one of the same node that comes in: an
/// older window that comes late only shows that the node is alive.
pub open spec fn kept(stored: NodeView, w: NodeView) -> NodeView {
    if stored.end > w.end {
        NodeView { received: w.received, ..stored }
    } else {
        w
    }
}

/// The windows with one that comes in.
pub open spec fn stored(nodes: Seq<NodeView>, w: NodeView) -> Seq<NodeView>
    decreases nodes.len(),
{
    if nodes.len() == 0 {
        seq![w]
    } else if nodes.last().node == w.node {
        nodes.drop_last().push(kept(nodes.last(), w))
    } else if text_before(nodes.last().node, w.node) {
        nodes.push(w)
    } else {
        stored(nodes.drop_last(), w).push(nodes.last())
    }
}

/// Whether a window that comes in replaces what is stored.
pub open spec fn replaces(nodes: Seq<NodeView>, w: NodeView) -> bool {
    !exists|i: int|
        0 <= i < nodes.len() && (#[trigger] nodes[i]).node == w.node && nodes[i].end > w.end
}

/// Store a window. Says whether it replaces what was stored.
pub fn store_window(nodes: &mut Vec<NodeWindow>, w: NodeWindow) -> (r: bool)
    requires
        in_node_order(node_views(old(nodes)@)),
    ensures
        node_views(final(nodes)@) == stored(node_views(old(nodes)@), w@),
        r == replaces(node_views(old(nodes)@), w@),
{
    let ghost before = nodes@;
    let ghost all = node_views(nodes@);
    let ghost view = w@;
    let mut at: usize = nodes.len();
    assert(all.take(at as int) =~= all);
    assert(stored(all, view) =~= stored(all.take(at as int), view) + all.skip(at as int));
    while at > 0
        invariant
            at <= nodes@.len(),
            nodes@ == before,
            before == old(nodes)@,
            all == node_views(before),
            view == w@,
            in_node_order(all),
            stored(all, view) == stored(all.take(at as int), view) + all.skip(at as int),
            forall|i: int| at <= i < all.len() ==> (#[trigger] all[i]).node != view.node,
        ensures
            at <= nodes@.len(),
            nodes@ == before,
            at > 0 ==> text_before(all[at - 1].node, view.node) && all[at - 1].node != view.node,
            stored(all, view) == stored(all.take(at as int), view) + all.skip(at as int),
            forall|i: int| at <= i < all.len() ==> (#[trigger] all[i]).node != view.node,
        decreases at,
    {
        let ghost t = all.take(at as int);
        assert(t.last() == all[at - 1]);
        assert(t.drop_last() =~= all.take(at - 1));
        if same_text(nodes[at - 1].node.as_str(), w.node.as_str()) {
            proof {
                assert forall|i: int| 0 <= i < all.len() && i != at - 1 implies (
                #[trigger] all[i]).node != view.node by {
                    if i < at - 1 {
                        assert(text_before(all[i].node, all[at - 1].node));
                        lemma_text_irreflexive(view.node);
                    }
                }
                assert(all[at - 1].node == view.node);
            }
            if nodes[at - 1].end > w.end {
                let mut held = nodes[at - 1].copy();
                held.received = w.received;
                let ghost now = held@;
                nodes.set(at - 1, held);
                assert(node_views(nodes@) =~= all.take(at - 1).push(now) + all.skip(at as int));
                return false;
            }
            nodes.set(at - 1, w);
            assert(node_views(nodes@) =~= all.take(at - 1).push(view) + all.skip(at as int));
            return true;
        }
        if text_less(nodes[at - 1].node.as_str(), w.node.as_str()) {
            break;
        }
        proof {
            assert(stored(all.take(at - 1), view).push(all[at - 1]) + all.skip(at as int)
                =~= stored(all.take(at - 1), view) + all.skip(at - 1));
        }
        at = at - 1;
    }
    proof {
        let t = all.take(at as int);
        if at > 0 {
            assert(t.last() == all[at - 1]);
        }
        assert(stored(t, view) =~= t.push(view));
        assert forall|i: int| 0 <= i < all.len() implies (#[trigger] all[i]).node != view.node by {
            if i < at - 1 {
                assert(text_before(all[i].node, all[at - 1].node));
                lemma_text_transitive(all[i].node, all[at - 1].node, view.node);
                lemma_text_irreflexive(view.node);
            }
        }
    }
    nodes.insert(at, w);
    assert(node_views(nodes@) =~= all.take(at as int).push(view) + all.skip(at as int));
    true
}

// ---------------------------------------------------------------------------
// Forgetting nodes
// ---------------------------------------------------------------------------

/// Whether a node has not pushed for `cutoff`.
pub open spec fn is_stale(w: NodeView, now: u64, cutoff: u64) -> bool {
    if now >= w.received {
        now - w.received >= cutoff
    } else {
        cutoff == 0
    }
}

/// The windows of nodes that are alive.
pub open spec fn alive(nodes: Seq<NodeView>, now: u64, cutoff: u64) -> Seq<NodeView>
    decreases nodes.len(),
{
    if nodes.len() == 0 {
        Seq::empty()
    } else if is_stale(nodes.last(), now, cutoff) {
        alive(nodes.drop_last(), now, cutoff)
    } else {
        alive(nodes.drop_last(), now, cutoff).push(nodes.last())
    }
}

/// Which summaries lose a window.
pub open spec fn losing(nodes: Seq<NodeView>, now: u64, cutoff: u64) -> Seq<bool>
    decreases nodes.len(),
{
    if nodes.len() == 0 {
        no_shards()
    } else if is_stale(nodes.last(), now, cutoff) {
        losing(nodes.drop_last(), now, cutoff).update(shard_of(nodes.last().node), true)
    } else {
        losing(nodes.drop_last(), now, cutoff)
    }
}

/// No summary.
pub open spec fn no_shards() -> Seq<bool> {
    Seq::new(MERGE_CACHE_SHARDS as nat, |i: int| false)
}

/// Every summary.
pub open spec fn all_shards() -> Seq<bool> {
    Seq::new(MERGE_CACHE_SHARDS as nat, |i: int| true)
}

pub fn flags(value: bool) -> (r: Vec<bool>)
    ensures
        value ==> r@ == all_shards(),
        !value ==> r@ == no_shards(),
{
    let mut out: Vec<bool> = Vec::new();
    let mut i: usize = 0;
    while i < MERGE_CACHE_SHARDS
        invariant
            i <= MERGE_CACHE_SHARDS,
            out@.len() == i,
            forall|j: int| 0 <= j < i ==> out@[j] == value,
        decreases MERGE_CACHE_SHARDS - i,
    {
        out.push(value);
        i += 1;
    }
    assert(value ==> out@ =~= all_shards());
    assert(!value ==> out@ =~= no_shards());
    out
}

/// What is left of windows when nodes that do not push are forgotten.
pub struct Forgotten {
    pub nodes: Vec<NodeWindow>,
    /// Summaries that lose a window.
    pub shards: Vec<bool>,
}

/// Forget the nodes that have not pushed for `cutoff`.
pub fn forget_stale(nodes: &Vec<NodeWindow>, now: u64, cutoff: u64) -> (r: Forgotten)
    ensures
        node_views(r.nodes@) == alive(node_views(nodes@), now, cutoff),
        r.shards@ == losing(node_views(nodes@), now, cutoff),
        r.shards@.len() == MERGE_CACHE_SHARDS,
{
    let ghost all = node_views(nodes@);
    let mut kept_nodes: Vec<NodeWindow> = Vec::new();
    let mut shards: Vec<bool> = flags(false);
    let mut i: usize = 0;
    assert(all.take(0) =~= Seq::<NodeView>::empty());
    assert(node_views(kept_nodes@) =~= alive(all.take(0), now, cutoff));
    while i < nodes.len()
        invariant
            i <= nodes@.len(),
            all == node_views(nodes@),
            node_views(kept_nodes@) == alive(all.take(i as int), now, cutoff),
            shards@ == losing(all.take(i as int), now, cutoff),
            shards@.len() == MERGE_CACHE_SHARDS,
        decreases nodes@.len() - i,
    {
        let w = &nodes[i];
        assert(all.take(i + 1).drop_last() =~= all.take(i as int));
        assert(all.take(i + 1).last() == w@);
        let stale = if now >= w.received {
            now - w.received >= cutoff
        } else {
            cutoff == 0
        };
        if stale {
            let shard: usize = merge_shard(w.node.as_str());
            shards.set(shard, true);
        } else {
            let ghost before = kept_nodes@;
            let c = w.copy();
            kept_nodes.push(c);
            assert(node_views(kept_nodes@) =~= node_views(before).push(w@));
        }
        i += 1;
    }
    assert(all.take(i as int) =~= all);
    Forgotten { nodes: kept_nodes, shards }
}

// ---------------------------------------------------------------------------
// The window that is merged
// ---------------------------------------------------------------------------

/// The latest end of the windows.
pub open spec fn latest_end(nodes: Seq<NodeView>) -> u64
    decreases nodes.len(),
{
    if nodes.len() == 0 {
        0
    } else if nodes.last().end >= latest_end(nodes.drop_last()) {
        nodes.last().end
    } else {
        latest_end(nodes.drop_last())
    }
}

/// How many nodes have exactly this window.
pub open spec fn votes(nodes: Seq<NodeView>, start: u64, end: u64) -> nat
    decreases nodes.len(),
{
    if nodes.len() == 0 {
        0
    } else {
        votes(nodes.drop_last(), start, end) + if nodes.last().start == start && nodes.last().end
            == end {
            1nat
        } else {
            0
        }
    }
}

/// Whether `a` is preferred to `b` as a start: more nodes have it, or as many
/// and it is earlier.
pub open spec fn preferred(nodes: Seq<NodeView>, end: u64, a: u64, b: u64) -> bool {
    ||| votes(nodes, a, end) > votes(nodes, b, end)
    ||| votes(nodes, a, end) == votes(nodes, b, end) && a <= b
}

/// The window that is merged: of the windows that end last, the one that most
/// nodes have, the longest of them where several do.
pub open spec fn is_selected(nodes: Seq<NodeView>, w: (u64, u64)) -> bool {
    &&& w.1 == latest_end(nodes)
    &&& votes(nodes, w.0, w.1) > 0
    &&& forall|s: u64| votes(nodes, s, w.1) > 0 ==> #[trigger] preferred(nodes, w.1, w.0, s)
}

proof fn lemma_votes_witness(nodes: Seq<NodeView>, start: u64, end: u64, n: int)
    requires
        0 <= n <= nodes.len(),
    ensures
        votes(nodes.take(n), start, end) <= votes(nodes, start, end),
        votes(nodes, start, end) > 0 ==> exists|i: int|
            0 <= i < nodes.len() && (#[trigger] nodes[i]).start == start && nodes[i].end == end,
    decreases nodes.len(),
{
    if nodes.len() > 0 {
        let head = nodes.drop_last();
        if n < nodes.len() {
            lemma_votes_witness(head, start, end, n);
            assert(head.take(n) =~= nodes.take(n));
        } else {
            assert(nodes.take(n) =~= nodes);
            lemma_votes_witness(head, start, end, 0);
        }
        if votes(nodes, start, end) > 0 {
            if nodes.last().start == start && nodes.last().end == end {
                assert(nodes[nodes.len() - 1] == nodes.last());
            } else {
                let i = choose|i: int|
                    0 <= i < head.len() && (#[trigger] head[i]).start == start && head[i].end
                        == end;
                assert(nodes[i] == head[i]);
            }
        }
    } else {
        assert(nodes.take(n) =~= nodes);
    }
}

proof fn lemma_latest(nodes: Seq<NodeView>)
    ensures
        forall|i: int| 0 <= i < nodes.len() ==> (#[trigger] nodes[i]).end <= latest_end(nodes),
        nodes.len() > 0 ==> exists|i: int|
            0 <= i < nodes.len() && (#[trigger] nodes[i]).end == latest_end(nodes),
    decreases nodes.len(),
{
    if nodes.len() > 0 {
        let head = nodes.drop_last();
        lemma_latest(head);
        assert forall|i: int| 0 <= i < nodes.len() implies (#[trigger] nodes[i]).end <= latest_end(
            nodes,
        ) by {
            if i < head.len() {
                assert(nodes[i] == head[i]);
            }
        }
        if nodes.last().end >= latest_end(head) {
            assert(nodes[nodes.len() - 1].end == latest_end(nodes));
        } else {
            let i = choose|i: int| 0 <= i < head.len() && (#[trigger] head[i]).end == latest_end(
                head,
            );
            assert(nodes[i] == head[i]);
        }
    }
}

proof fn lemma_votes_positive(nodes: Seq<NodeView>, i: int)
    requires
        0 <= i < nodes.len(),
    ensures
        votes(nodes, nodes[i].start, nodes[i].end) > 0,
{
    let p = nodes.take(i + 1);
    assert(p.last() == nodes[i]);
    lemma_votes_witness(nodes, nodes[i].start, nodes[i].end, i + 1);
}

/// One window is selected, and no other could be.
pub proof fn law_selected_window_is_unique(nodes: Seq<NodeView>, a: (u64, u64), b: (u64, u64))
    requires
        is_selected(nodes, a),
        is_selected(nodes, b),
    ensures
        a == b,
{
    assert(preferred(nodes, a.1, a.0, b.0));
    assert(preferred(nodes, b.1, b.0, a.0));
}

/// The best start among the first `j` windows.
proof fn lemma_best_start(nodes: Seq<NodeView>, end: u64, j: int) -> (best: Option<u64>)
    requires
        0 <= j <= nodes.len(),
    ensures
        best is None ==> forall|i: int| 0 <= i < j ==> (#[trigger] nodes[i]).end != end,
        best is Some ==> votes(nodes, best->0, end) > 0 && forall|i: int|
            0 <= i < j && (#[trigger] nodes[i]).end == end ==> preferred(
                nodes,
                end,
                best->0,
                nodes[i].start,
            ),
    decreases j,
{
    if j == 0 {
        None
    } else {
        let before = lemma_best_start(nodes, end, j - 1);
        if nodes[j - 1].end == end {
            lemma_votes_positive(nodes, j - 1);
            let s = nodes[j - 1].start;
            match before {
                None => Some(s),
                Some(b) => if preferred(nodes, end, b, s) {
                    before
                } else {
                    Some(s)
                },
            }
        } else {
            before
        }
    }
}

/// Where there are windows, one of them is selected.
pub proof fn law_a_window_is_selected(nodes: Seq<NodeView>)
    requires
        nodes.len() > 0,
    ensures
        exists|w: (u64, u64)| is_selected(nodes, w),
{
    let end = latest_end(nodes);
    lemma_latest(nodes);
    let best = lemma_best_start(nodes, end, nodes.len() as int);
    let i = choose|i: int| 0 <= i < nodes.len() && (#[trigger] nodes[i]).end == latest_end(nodes);
    assert(nodes[i].end == end);
    assert(best is Some);
    let w = (best->0, end);
    assert forall|s: u64| votes(nodes, s, end) > 0 implies #[trigger] preferred(
        nodes,
        end,
        w.0,
        s,
    ) by {
        lemma_votes_witness(nodes, s, end, 0);
        let k = choose|k: int|
            0 <= k < nodes.len() && (#[trigger] nodes[k]).start == s && nodes[k].end == end;
        assert(preferred(nodes, end, w.0, nodes[k].start));
    }
    assert(is_selected(nodes, w));
}

fn count_votes(nodes: &Vec<NodeWindow>, start: u64, end: u64) -> (r: usize)
    ensures
        r == votes(node_views(nodes@), start, end),
{
    let ghost all = node_views(nodes@);
    let mut n: usize = 0;
    let mut i: usize = 0;
    assert(all.take(0) =~= Seq::<NodeView>::empty());
    while i < nodes.len()
        invariant
            i <= nodes@.len(),
            n <= i,
            all == node_views(nodes@),
            n == votes(all.take(i as int), start, end),
        decreases nodes@.len() - i,
    {
        assert(all.take(i + 1).drop_last() =~= all.take(i as int));
        assert(all.take(i + 1).last() == nodes@[i as int]@);
        if nodes[i].start == start && nodes[i].end == end {
            n += 1;
        }
        i += 1;
    }
    assert(all.take(i as int) =~= all);
    n
}

/// The window that is merged, if any node has one.
pub fn selected_window(nodes: &Vec<NodeWindow>) -> (r: Option<(u64, u64)>)
    ensures
        nodes@.len() == 0 <==> r is None,
        r is Some ==> is_selected(node_views(nodes@), r->0),
{
    let ghost all = node_views(nodes@);
    if nodes.len() == 0 {
        return None;
    }
    let mut end: u64 = 0;
    let mut i: usize = 0;
    assert(all.take(0) =~= Seq::<NodeView>::empty());
    while i < nodes.len()
        invariant
            i <= nodes@.len(),
            all == node_views(nodes@),
            end == latest_end(all.take(i as int)),
        decreases nodes@.len() - i,
    {
        assert(all.take(i + 1).drop_last() =~= all.take(i as int));
        assert(all.take(i + 1).last() == nodes@[i as int]@);
        if nodes[i].end >= end {
            end = nodes[i].end;
        }
        i += 1;
    }
    assert(all.take(i as int) =~= all);
    proof {
        lemma_latest(all);
    }
    let mut best: Option<(u64, usize)> = None;
    let mut j: usize = 0;
    while j < nodes.len()
        invariant
            j <= nodes@.len(),
            all == node_views(nodes@),
            end == latest_end(all),
            best is None ==> forall|i: int| 0 <= i < j ==> (#[trigger] all[i]).end != end,
            best is Some ==> {
                let (s, n) = best->0;
                &&& n == votes(all, s, end)
                &&& n > 0
                &&& forall|i: int|
                    0 <= i < j && (#[trigger] all[i]).end == end ==> preferred(
                        all,
                        end,
                        s,
                        all[i].start,
                    )
            },
        decreases nodes@.len() - j,
    {
        assert(all[j as int] == nodes@[j as int]@);
        if nodes[j].end == end {
            let s: u64 = nodes[j].start;
            let n: usize = count_votes(nodes, s, end);
            proof {
                lemma_votes_positive(all, j as int);
            }
            match best {
                None => {
                    best = Some((s, n));
                },
                Some((t, m)) => {
                    if n > m || (n == m && s < t) {
                        best = Some((s, n));
                    }
                },
            }
        }
        j += 1;
    }
    match best {
        Some((s, n)) => {
            proof {
                assert forall|t: u64| votes(all, t, end) > 0 implies #[trigger] preferred(
                    all,
                    end,
                    s,
                    t,
                ) by {
                    lemma_votes_witness(all, t, end, 0);
                    let i = choose|i: int|
                        0 <= i < all.len() && (#[trigger] all[i]).start == t && all[i].end == end;
                    assert(preferred(all, end, s, all[i].start));
                }
            }
            Some((s, end))
        },
        None => {
            proof {
                let i = choose|i: int| 0 <= i < all.len() && (#[trigger] all[i]).end == latest_end(
                    all,
                );
                assert(all[i].end != end);
            }
            None
        },
    }
}

/// The windows that are merged into one summary, in node order.
pub open spec fn members(nodes: Seq<NodeView>, target: (u64, u64), shard: int) -> Seq<u64>
    decreases nodes.len(),
{
    if nodes.len() == 0 {
        Seq::empty()
    } else {
        let before = members(nodes.drop_last(), target, shard);
        let w = nodes.last();
        if shard_of(w.node) == shard && (w.start, w.end) == target {
            before.push(w.token)
        } else {
            before
        }
    }
}

/// Tokens of the windows that are merged into one summary.
pub fn shard_members(nodes: &Vec<NodeWindow>, target: (u64, u64), shard: usize) -> (r: Vec<u64>)
    ensures
        r@ == members(node_views(nodes@), target, shard as int),
{
    let ghost all = node_views(nodes@);
    let mut out: Vec<u64> = Vec::new();
    let mut i: usize = 0;
    assert(all.take(0) =~= Seq::<NodeView>::empty());
    while i < nodes.len()
        invariant
            i <= nodes@.len(),
            all == node_views(nodes@),
            out@ == members(all.take(i as int), target, shard as int),
        decreases nodes@.len() - i,
    {
        let w = &nodes[i];
        assert(all.take(i + 1).drop_last() =~= all.take(i as int));
        assert(all.take(i + 1).last() == w@);
        if merge_shard(w.node.as_str()) == shard && w.start == target.0 && w.end == target.1 {
            out.push(w.token);
        }
        i += 1;
    }
    assert(all.take(i as int) =~= all);
    out
}

// ---------------------------------------------------------------------------
// Laws
// ---------------------------------------------------------------------------

/// Node order is kept when a window is stored, and the nodes are those that
/// were there and the one that pushed.
pub proof fn law_storing_keeps_node_order(nodes: Seq<NodeView>, w: NodeView)
    requires
        in_node_order(nodes),
    ensures
        in_node_order(stored(nodes, w)),
        forall|n: Seq<char>| #[trigger] has_node(stored(nodes, w), n) <==> has_node(nodes, n) || n == w.node,
    decreases nodes.len(),
{
    let r = stored(nodes, w);
    if nodes.len() == 0 {
        assert(r[0] == w);
        assert forall|n: Seq<char>| #[trigger] has_node(r, n) <==> has_node(nodes, n) || n
            == w.node by {
            if n == w.node {
                assert(r[0].node == n);
            }
        }
    } else if nodes.last().node == w.node {
        assert forall|i: int, j: int| 0 <= i < j < r.len() implies text_before(
            (#[trigger] r[i]).node,
            (#[trigger] r[j]).node,
        ) by {
            assert(nodes[i].node == r[i].node);
            assert(nodes[j].node == r[j].node);
        }
        assert forall|n: Seq<char>| #[trigger] has_node(r, n) <==> has_node(nodes, n) || n
            == w.node by {
            if has_node(r, n) {
                let i = choose|i: int| 0 <= i < r.len() && (#[trigger] r[i]).node == n;
                assert(nodes[i].node == n);
            }
            if has_node(nodes, n) {
                let i = choose|i: int| 0 <= i < nodes.len() && (#[trigger] nodes[i]).node == n;
                assert(r[i].node == n);
            }
            if n == w.node {
                assert(r[r.len() - 1].node == n);
            }
        }
    } else if text_before(nodes.last().node, w.node) {
        assert forall|i: int, j: int| 0 <= i < j < r.len() implies text_before(
            (#[trigger] r[i]).node,
            (#[trigger] r[j]).node,
        ) by {
            assert(r[i] == nodes[i]);
            if j < nodes.len() {
                assert(r[j] == nodes[j]);
            } else if i < nodes.len() - 1 {
                assert(text_before(nodes[i].node, nodes[nodes.len() - 1].node));
                lemma_text_transitive(nodes[i].node, nodes.last().node, w.node);
            }
        }
        assert forall|n: Seq<char>| #[trigger] has_node(r, n) <==> has_node(nodes, n) || n
            == w.node by {
            if has_node(r, n) {
                let i = choose|i: int| 0 <= i < r.len() && (#[trigger] r[i]).node == n;
                if i < nodes.len() {
                    assert(nodes[i].node == n);
                }
            }
            if has_node(nodes, n) {
                let i = choose|i: int| 0 <= i < nodes.len() && (#[trigger] nodes[i]).node == n;
                assert(r[i].node == n);
            }
            if n == w.node {
                assert(r[r.len() - 1].node == n);
            }
        }
    } else {
        let head = nodes.drop_last();
        assert forall|i: int, j: int| 0 <= i < j < head.len() implies text_before(
            (#[trigger] head[i]).node,
            (#[trigger] head[j]).node,
        ) by {
            assert(head[i] == nodes[i] && head[j] == nodes[j]);
        }
        law_storing_keeps_node_order(head, w);
        lemma_text_total(nodes.last().node, w.node);
        let h = stored(head, w);
        assert forall|i: int, j: int| 0 <= i < j < r.len() implies text_before(
            (#[trigger] r[i]).node,
            (#[trigger] r[j]).node,
        ) by {
            assert(r[i] == h[i]);
            if j < h.len() {
                assert(r[j] == h[j]);
            } else {
                assert(has_node(h, h[i].node));
                if h[i].node != w.node {
                    let k = choose|k: int| 0 <= k < head.len() && (#[trigger] head[k]).node
                        == h[i].node;
                    assert(nodes[k] == head[k]);
                    assert(text_before(nodes[k].node, nodes[nodes.len() - 1].node));
                }
            }
        }
        assert forall|n: Seq<char>| #[trigger] has_node(r, n) <==> has_node(nodes, n) || n
            == w.node by {
            if has_node(r, n) {
                let i = choose|i: int| 0 <= i < r.len() && (#[trigger] r[i]).node == n;
                if i < h.len() {
                    assert(h[i].node == n);
                    assert(has_node(h, n));
                    if n != w.node {
                        let k = choose|k: int| 0 <= k < head.len() && (#[trigger] head[k]).node
                            == n;
                        assert(nodes[k].node == n);
                    }
                } else {
                    assert(nodes[nodes.len() - 1].node == n);
                }
            }
            if has_node(nodes, n) {
                let k = choose|k: int| 0 <= k < nodes.len() && (#[trigger] nodes[k]).node == n;
                if k < head.len() {
                    assert(head[k].node == n);
                    assert(has_node(h, n));
                    let i = choose|i: int| 0 <= i < h.len() && (#[trigger] h[i]).node == n;
                    assert(r[i].node == n);
                } else {
                    assert(r[h.len() as int].node == n);
                }
            }
            if n == w.node {
                assert(has_node(h, n));
                let i = choose|i: int| 0 <= i < h.len() && (#[trigger] h[i]).node == n;
                assert(r[i].node == n);
            }
        }
    }
}

/// Whether a node has a window.
pub open spec fn has_node(nodes: Seq<NodeView>, n: Seq<char>) -> bool {
    exists|i: int| 0 <= i < nodes.len() && (#[trigger] nodes[i]).node == n
}

/// A window that is stored never goes back: what is kept of a node ends no
/// earlier than before, and a push of an older window changes nothing but the
/// time of the last push.
pub proof fn law_windows_never_go_back(before: NodeView, w: NodeView)
    requires
        before.node == w.node,
    ensures
        kept(before, w).end >= before.end,
        kept(before, w).received == w.received,
        before.end > w.end ==> kept(before, w).start == before.start && kept(before, w).end
            == before.end && kept(before, w).token == before.token,
{
}

/// Forgetting keeps the order, keeps no stale node and drops no other.
pub proof fn law_forgetting_is_exact(nodes: Seq<NodeView>, now: u64, cutoff: u64)
    ensures
        forall|w: NodeView| #[trigger]
            alive(nodes, now, cutoff).contains(w) <==> nodes.contains(w) && !is_stale(
                w,
                now,
                cutoff,
            ),
        in_node_order(nodes) ==> in_node_order(alive(nodes, now, cutoff)),
        alive(nodes, now, cutoff).len() <= nodes.len(),
    decreases nodes.len(),
{
    let r = alive(nodes, now, cutoff);
    if nodes.len() > 0 {
        let head = nodes.drop_last();
        law_forgetting_is_exact(head, now, cutoff);
        let h = alive(head, now, cutoff);
        assert forall|w: NodeView| #[trigger] r.contains(w) <==> nodes.contains(w) && !is_stale(
            w,
            now,
            cutoff,
        ) by {
            if r.contains(w) {
                let i = choose|i: int| 0 <= i < r.len() && r[i] == w;
                if i < h.len() {
                    assert(h[i] == w);
                    assert(h.contains(w));
                    let k = choose|k: int| 0 <= k < head.len() && head[k] == w;
                    assert(nodes[k] == w);
                } else {
                    assert(nodes[nodes.len() - 1] == w);
                }
            }
            if nodes.contains(w) && !is_stale(w, now, cutoff) {
                let k = choose|k: int| 0 <= k < nodes.len() && nodes[k] == w;
                if k < head.len() {
                    assert(head[k] == w);
                    assert(h.contains(w));
                    let i = choose|i: int| 0 <= i < h.len() && h[i] == w;
                    assert(r[i] == w);
                } else {
                    assert(r[r.len() - 1] == w);
                }
            }
        }
        if in_node_order(nodes) {
            assert forall|i: int, j: int| 0 <= i < j < head.len() implies text_before(
                (#[trigger] head[i]).node,
                (#[trigger] head[j]).node,
            ) by {
                assert(head[i] == nodes[i] && head[j] == nodes[j]);
            }
            assert forall|i: int, j: int| 0 <= i < j < r.len() implies text_before(
                (#[trigger] r[i]).node,
                (#[trigger] r[j]).node,
            ) by {
                assert(r[i] == h[i]);
                if j < h.len() {
                    assert(r[j] == h[j]);
                } else {
                    assert(h.contains(h[i]));
                    let k = choose|k: int| 0 <= k < head.len() && head[k] == h[i];
                    assert(nodes[k] == h[i]);
                    assert(text_before(nodes[k].node, nodes[nodes.len() - 1].node));
                }
            }
        }
    }
}

} // verus!
