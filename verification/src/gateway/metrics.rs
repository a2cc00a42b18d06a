//! What the gateway reports of itself and of the cluster.

use vstd::prelude::*;
use vstd::string::*;

use crate::estimate::SketchEstimate;
use crate::gateway::state::{
    merged_views, merges, node_count, GatewayCounters, GatewayState, MergedQuery, MergedView,
};
use crate::gateway::windows::MERGE_CACHE_SHARDS;
use crate::metrics::{
    push_header, push_labelled, push_metric, with_header, with_labelled, with_metric, MetricKind,
};
use crate::prometheus::{exposition, render, QueryExportInfo};
use crate::sorting::reversed;
use crate::text::same_text;

verus! {

/// Whether all windows of the query named are merged.
pub open spec fn is_complete(merged: Seq<MergedView>, query: Seq<char>) -> bool {
    exists|i: int|
        0 <= i < merged.len() && (#[trigger] merged[i]).query_name == query
            && merged[i].nodes_merged == merged[i].nodes_known
}

/// The estimates that stand for the whole cluster.
pub open spec fn complete_only(es: Seq<SketchEstimate>, merged: Seq<MergedView>) -> Seq<
    SketchEstimate,
>
    decreases es.len(),
{
    if es.len() == 0 {
        Seq::empty()
    } else {
        let before = complete_only(es.drop_last(), merged);
        if is_complete(merged, es.last().query_name@) {
            before.push(es.last())
        } else {
            before
        }
    }
}

/// The values of the estimates that stand for the whole cluster.
pub open spec fn complete_values(
    es: Seq<SketchEstimate>,
    shown: Seq<String>,
    merged: Seq<MergedView>,
) -> Seq<String>
    decreases es.len(),
{
    if es.len() == 0 {
        Seq::empty()
    } else {
        let before = complete_values(es.drop_last(), shown.drop_last(), merged);
        if is_complete(merged, es.last().query_name@) {
            before.push(shown.last())
        } else {
            before
        }
    }
}

fn complete(merged: &Vec<MergedQuery>, query: &str) -> (r: bool)
    ensures
        r == is_complete(merged_views(merged@), query@),
{
    let ghost all = merged_views(merged@);
    let mut i: usize = 0;
    while i < merged.len()
        invariant
            i <= merged@.len(),
            all == merged_views(merged@),
            forall|j: int|
                0 <= j < i ==> (#[trigger] all[j]).query_name != query@ || all[j].nodes_merged
                    != all[j].nodes_known,
        decreases merged@.len() - i,
    {
        assert(all[i as int] == merged@[i as int]@);
        if merged[i].nodes_merged == merged[i].nodes_known && same_text(
            merged[i].query_name.as_str(),
            query,
        ) {
            return true;
        }
        i += 1;
    }
    false
}

fn keep_complete(
    estimates: Vec<SketchEstimate>,
    shown: Vec<String>,
    merged: &Vec<MergedQuery>,
) -> (r: (Vec<SketchEstimate>, Vec<String>))
    requires
        estimates@.len() == shown@.len(),
    ensures
        r.0@ == complete_only(estimates@, merged_views(merged@)),
        r.1@ == complete_values(estimates@, shown@, merged_views(merged@)),
        r.0@.len() == r.1@.len(),
{
    let ghost m = merged_views(merged@);
    let ghost es = estimates@;
    let ghost ss = shown@;
    let mut rest = reversed(estimates);
    let mut rest_shown = reversed(shown);
    let mut kept: Vec<SketchEstimate> = Vec::new();
    let mut kept_shown: Vec<String> = Vec::new();
    let ghost mut i: int = 0;
    assert(es.take(0) =~= Seq::<SketchEstimate>::empty());
    assert(ss.take(0) =~= Seq::<String>::empty());
    assert(es.skip(0) =~= es && ss.skip(0) =~= ss);
    while rest.len() > 0
        invariant
            0 <= i <= es.len(),
            es.len() == ss.len(),
            m == merged_views(merged@),
            rest@ == es.skip(i).reverse(),
            rest_shown@ == ss.skip(i).reverse(),
            kept@ == complete_only(es.take(i), m),
            kept_shown@ == complete_values(es.take(i), ss.take(i), m),
            kept@.len() == kept_shown@.len(),
        decreases rest@.len(),
    {
        proof {
            assert(es.take(i + 1).drop_last() =~= es.take(i));
            assert(ss.take(i + 1).drop_last() =~= ss.take(i));
            assert(rest@.last() == es[i]);
            assert(rest_shown@.last() == ss[i]);
        }
        if let Some(e) = rest.pop() {
            if let Some(s) = rest_shown.pop() {
                if complete(merged, e.query_name.as_str()) {
                    kept.push(e);
                    kept_shown.push(s);
                }
            }
        }
        proof {
            assert(rest@ =~= es.skip(i + 1).reverse());
            assert(rest_shown@ =~= ss.skip(i + 1).reverse());
            i = i + 1;
        }
    }
    assert(es.take(i) =~= es);
    assert(ss.take(i) =~= ss);
    (kept, kept_shown)
}

// ---------------------------------------------------------------------------
// The page
// ---------------------------------------------------------------------------

/// Which number of a merge a line shows.
#[derive(Debug, Clone, Copy)]
pub enum Shown {
    Known,
    Merged,
    Complete,
}

pub open spec fn shown_number(m: MergedView, what: Shown) -> nat {
    match what {
        Shown::Known => m.nodes_known,
        Shown::Merged => m.nodes_merged,
        Shown::Complete => if m.nodes_merged == m.nodes_known {
            1
        } else {
            0
        },
    }
}

/// A text followed by one line for each query.
pub open spec fn with_queries(
    before: Seq<char>,
    name: Seq<char>,
    merged: Seq<MergedView>,
    what: Shown,
) -> Seq<char>
    decreases merged.len(),
{
    if merged.len() == 0 {
        before
    } else {
        with_labelled(
            with_queries(before, name, merged.drop_last(), what),
            name,
            "query"@,
            merged.last().query_name,
            shown_number(merged.last(), what),
        )
    }
}

/// A text followed by the counters.
pub open spec fn with_counters(before: Seq<char>, c: GatewayCounters) -> Seq<char> {
    let kind = MetricKind::Counter;
    let t = with_metric(
        before,
        "flowsketch_gateway_pushes_total"@,
        "Snapshot push requests received."@,
        kind,
        c.pushes_total as nat,
    );
    let t = with_metric(
        t,
        "flowsketch_gateway_snapshots_accepted_total"@,
        "Per-query window states accepted from pushes."@,
        kind,
        c.snapshots_accepted as nat,
    );
    let t = with_metric(
        t,
        "flowsketch_gateway_snapshots_rejected_total"@,
        "Per-query window states rejected (unknown query or incompatible sketch)."@,
        kind,
        c.snapshots_rejected as nat,
    );
    let t = with_metric(
        t,
        "flowsketch_gateway_node_admission_rejections_total"@,
        "New-node push batches rejected because gateway node capacity was full."@,
        kind,
        c.node_admission_rejections as nat,
    );
    let t = with_metric(
        t,
        "flowsketch_gateway_body_budget_rejections_total"@,
        "Snapshot pushes rejected before allocation by the in-flight HTTP body budget."@,
        kind,
        c.body_budget_rejections as nat,
    );
    with_metric(
        t,
        "flowsketch_gateway_merge_cache_shard_rebuilds_total"@,
        "Fixed merge-cache shards rebuilt after accepted node updates or expiry."@,
        kind,
        c.merge_cache_shard_rebuilds as nat,
    )
}

/// A text followed by the gauges.
pub open spec fn with_gauges(
    before: Seq<char>,
    merged: Seq<MergedView>,
    nodes: nat,
    capacity: nat,
    queries: nat,
    uptime: nat,
) -> Seq<char> {
    let kind = MetricKind::Gauge;
    let known = "flowsketch_gateway_nodes_known"@;
    let t = with_header(before, known, "Nodes with a live snapshot for this query."@, kind);
    let t = with_queries(t, known, merged, Shown::Known);
    let t = with_metric(
        t,
        "flowsketch_gateway_nodes_tracked"@,
        "Unique live node identities retained by the gateway."@,
        kind,
        nodes,
    );
    let t = with_metric(
        t,
        "flowsketch_gateway_nodes_capacity"@,
        "Configured hard limit on live node identities."@,
        kind,
        capacity,
    );
    let t = with_metric(
        t,
        "flowsketch_gateway_merge_cache_shards"@,
        "Fixed upper bound on sketch states merged after a cache miss, independent of node count."@,
        kind,
        MERGE_CACHE_SHARDS as nat,
    );
    let complete = "flowsketch_gateway_merge_complete"@;
    let t = with_header(
        t,
        complete,
        "Whether every live node was included in the exported window; incomplete merges suppress cluster estimates."@,
        kind,
    );
    let t = with_queries(t, complete, merged, Shown::Complete);
    let all = "flowsketch_gateway_nodes_merged"@;
    let t = with_header(
        t,
        all,
        "Nodes merged into this query's newest window (nodes on other window boundaries are excluded)."@,
        kind,
    );
    let t = with_queries(t, all, merged, Shown::Merged);
    let t = with_metric(
        t,
        "flowsketch_gateway_queries_active"@,
        "Queries this gateway merges."@,
        kind,
        queries,
    );
    with_metric(
        t,
        "flowsketch_gateway_uptime_seconds"@,
        "Seconds since gateway start."@,
        kind,
        uptime,
    )
}

fn push_queries(out: &mut String, name: &str, merged: &Vec<MergedQuery>, what: Shown)
    ensures
        final(out)@ == with_queries(old(out)@, name@, merged_views(merged@), what),
{
    let ghost all = merged_views(merged@);
    let ghost before = out@;
    let mut i: usize = 0;
    assert(all.take(0) =~= Seq::<MergedView>::empty());
    while i < merged.len()
        invariant
            i <= merged@.len(),
            all == merged_views(merged@),
            out@ == with_queries(before, name@, all.take(i as int), what),
        decreases merged@.len() - i,
    {
        let m = &merged[i];
        assert(all.take(i + 1).drop_last() =~= all.take(i as int));
        assert(all.take(i + 1).last() == m@);
        let n: u64 = match what {
            Shown::Known => m.nodes_known as u64,
            Shown::Merged => m.nodes_merged as u64,
            Shown::Complete => if m.nodes_merged == m.nodes_known {
                1
            } else {
                0
            },
        };
        push_labelled(out, name, "query", m.query_name.as_str(), n);
        i += 1;
    }
    assert(all.take(i as int) =~= all);
}

fn push_counters(out: &mut String, c: GatewayCounters)
    ensures
        final(out)@ == with_counters(old(out)@, c),
{
    let kind = MetricKind::Counter;
    push_metric(
        out,
        "flowsketch_gateway_pushes_total",
        "Snapshot push requests received.",
        kind,
        c.pushes_total,
    );
    push_metric(
        out,
        "flowsketch_gateway_snapshots_accepted_total",
        "Per-query window states accepted from pushes.",
        kind,
        c.snapshots_accepted,
    );
    push_metric(
        out,
        "flowsketch_gateway_snapshots_rejected_total",
        "Per-query window states rejected (unknown query or incompatible sketch).",
        kind,
        c.snapshots_rejected,
    );
    push_metric(
        out,
        "flowsketch_gateway_node_admission_rejections_total",
        "New-node push batches rejected because gateway node capacity was full.",
        kind,
        c.node_admission_rejections,
    );
    push_metric(
        out,
        "flowsketch_gateway_body_budget_rejections_total",
        "Snapshot pushes rejected before allocation by the in-flight HTTP body budget.",
        kind,
        c.body_budget_rejections,
    );
    push_metric(
        out,
        "flowsketch_gateway_merge_cache_shard_rebuilds_total",
        "Fixed merge-cache shards rebuilt after accepted node updates or expiry.",
        kind,
        c.merge_cache_shard_rebuilds,
    );
}

fn push_gauges(
    out: &mut String,
    merged: &Vec<MergedQuery>,
    nodes: usize,
    capacity: usize,
    queries: usize,
    uptime: u64,
)
    ensures
        final(out)@ == with_gauges(
            old(out)@,
            merged_views(merged@),
            nodes as nat,
            capacity as nat,
            queries as nat,
            uptime as nat,
        ),
{
    let kind = MetricKind::Gauge;
    push_header(
        out,
        "flowsketch_gateway_nodes_known",
        "Nodes with a live snapshot for this query.",
        kind,
    );
    push_queries(out, "flowsketch_gateway_nodes_known", merged, Shown::Known);
    push_metric(
        out,
        "flowsketch_gateway_nodes_tracked",
        "Unique live node identities retained by the gateway.",
        kind,
        nodes as u64,
    );
    push_metric(
        out,
        "flowsketch_gateway_nodes_capacity",
        "Configured hard limit on live node identities.",
        kind,
        capacity as u64,
    );
    push_metric(
        out,
        "flowsketch_gateway_merge_cache_shards",
        "Fixed upper bound on sketch states merged after a cache miss, independent of node count.",
        kind,
        MERGE_CACHE_SHARDS as u64,
    );
    push_header(
        out,
        "flowsketch_gateway_merge_complete",
        "Whether every live node was included in the exported window; incomplete merges suppress cluster estimates.",
        kind,
    );
    push_queries(out, "flowsketch_gateway_merge_complete", merged, Shown::Complete);
    push_header(
        out,
        "flowsketch_gateway_nodes_merged",
        "Nodes merged into this query's newest window (nodes on other window boundaries are excluded).",
        kind,
    );
    push_queries(out, "flowsketch_gateway_nodes_merged", merged, Shown::Merged);
    push_metric(
        out,
        "flowsketch_gateway_queries_active",
        "Queries this gateway merges.",
        kind,
        queries as u64,
    );
    push_metric(
        out,
        "flowsketch_gateway_uptime_seconds",
        "Seconds since gateway start.",
        kind,
        uptime,
    );
}

impl GatewayState {
    /// What `/metrics` shows: the estimates of the queries whose merge holds
    /// every live node, then the gateway's own health. `shown` holds the value
    /// of each estimate as text. A subset of the cluster would undercount
    /// without saying so: its estimates are left out, and only the gauges tell
    /// of it.
    pub fn render_metrics(
        &self,
        estimates: Vec<SketchEstimate>,
        shown: Vec<String>,
        info: &[(String, QueryExportInfo)],
        uptime_seconds: u64,
    ) -> (r: String)
        requires
            self.wf(),
            estimates@.len() == shown@.len(),
        ensures
            ({
                let m = merges(self.windows(), self.configured());
                r@ == with_gauges(
                    with_counters(
                        exposition(
                            complete_only(estimates@, m),
                            complete_values(estimates@, shown@, m),
                            info@,
                        ),
                        self.counts(),
                    ),
                    m,
                    node_count(self.windows()),
                    self.capacity(),
                    self.configured().len(),
                    uptime_seconds as nat,
                )
            }),
    {
        let merged = self.merged();
        let (estimates, shown) = keep_complete(estimates, shown, &merged);
        let (mut body, _) = render(estimates.as_slice(), shown.as_slice(), info);
        push_counters(&mut body, self.counter_values());
        push_gauges(
            &mut body,
            &merged,
            self.nodes_tracked(),
            self.max_nodes(),
            self.query_count(),
            uptime_seconds,
        );
        body
    }
}

// ---------------------------------------------------------------------------
// Laws
// ---------------------------------------------------------------------------

/// No estimate of a partial merge is published: all that are belong to a query
/// of which every live node was merged.
pub proof fn law_partial_merges_are_not_published(
    es: Seq<SketchEstimate>,
    merged: Seq<MergedView>,
)
    ensures
        forall|i: int|
            0 <= i < complete_only(es, merged).len() ==> is_complete(
                merged,
                (#[trigger] complete_only(es, merged)[i]).query_name@,
            ),
    decreases es.len(),
{
    if es.len() > 0 {
        law_partial_merges_are_not_published(es.drop_last(), merged);
        let before = complete_only(es.drop_last(), merged);
        assert forall|i: int| 0 <= i < complete_only(es, merged).len() implies is_complete(
            merged,
            (#[trigger] complete_only(es, merged)[i]).query_name@,
        ) by {
            if i < before.len() {
                assert(complete_only(es, merged)[i] == before[i]);
            }
        }
    }
}

/// Of a complete merge every estimate is published.
pub proof fn law_complete_merges_are_published(
    es: Seq<SketchEstimate>,
    merged: Seq<MergedView>,
    i: int,
)
    requires
        0 <= i < es.len(),
        is_complete(merged, es[i].query_name@),
    ensures
        complete_only(es, merged).contains(es[i]),
    decreases es.len(),
{
    let all = complete_only(es, merged);
    let before = complete_only(es.drop_last(), merged);
    if i == es.len() - 1 {
        assert(all[all.len() - 1] == es[i]);
    } else {
        law_complete_merges_are_published(es.drop_last(), merged, i);
        let k = choose|k: int| 0 <= k < before.len() && before[k] == es[i];
        assert(all[k] == es[i]);
    }
}

} // verus!
