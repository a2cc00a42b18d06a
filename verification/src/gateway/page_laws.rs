//! What the page of a gateway shows: its counters, every query's merge, and
//! only estimates that stand for the whole cluster.

use vstd::prelude::*;
use vstd::string::*;

use crate::estimate::SketchEstimate;
use crate::gateway::metrics::{
    complete_only, complete_values, is_complete, with_counters, with_gauges, with_queries, Shown,
};
use crate::gateway::state::{GatewayCounters, MergedView};
use crate::mentions::mentions;
use crate::metrics::MetricKind;
use crate::metrics_laws::{
    goes_on, labelled, lemma_goes_on_further, lemma_goes_on_self, lemma_header, lemma_labelled,
    lemma_metric, lemma_still_mentioned, sample,
};

verus! {

/// The page shows what the gateway has counted, each number under its own name.
pub proof fn law_gateway_counters_are_shown(before: Seq<char>, c: GatewayCounters)
    ensures
        goes_on(before, with_counters(before, c)),
        mentions(
            with_counters(before, c),
            sample("flowsketch_gateway_pushes_total"@, c.pushes_total as nat),
        ),
        mentions(
            with_counters(before, c),
            sample("flowsketch_gateway_snapshots_accepted_total"@, c.snapshots_accepted as nat),
        ),
        mentions(
            with_counters(before, c),
            sample("flowsketch_gateway_snapshots_rejected_total"@, c.snapshots_rejected as nat),
        ),
        mentions(
            with_counters(before, c),
            sample("flowsketch_gateway_node_admission_rejections_total"@, c.node_admission_rejections as nat),
        ),
        mentions(
            with_counters(before, c),
            sample("flowsketch_gateway_body_budget_rejections_total"@, c.body_budget_rejections as nat),
        ),
        mentions(
            with_counters(before, c),
            sample("flowsketch_gateway_merge_cache_shard_rebuilds_total"@, c.merge_cache_shard_rebuilds as nat),
        ),
{
    let t0 = lemma_metric(
        before,
        "flowsketch_gateway_pushes_total"@,
        "Snapshot push requests received."@,
        MetricKind::Counter,
        c.pushes_total as nat,
    );
    let t1 = lemma_metric(
        t0,
        "flowsketch_gateway_snapshots_accepted_total"@,
        "Per-query window states accepted from pushes."@,
        MetricKind::Counter,
        c.snapshots_accepted as nat,
    );
    let t2 = lemma_metric(
        t1,
        "flowsketch_gateway_snapshots_rejected_total"@,
        "Per-query window states rejected (unknown query or incompatible sketch)."@,
        MetricKind::Counter,
        c.snapshots_rejected as nat,
    );
    let t3 = lemma_metric(
        t2,
        "flowsketch_gateway_node_admission_rejections_total"@,
        "New-node push batches rejected because gateway node capacity was full."@,
        MetricKind::Counter,
        c.node_admission_rejections as nat,
    );
    let t4 = lemma_metric(
        t3,
        "flowsketch_gateway_body_budget_rejections_total"@,
        "Snapshot pushes rejected before allocation by the in-flight HTTP body budget."@,
        MetricKind::Counter,
        c.body_budget_rejections as nat,
    );
    let t5 = lemma_metric(
        t4,
        "flowsketch_gateway_merge_cache_shard_rebuilds_total"@,
        "Fixed merge-cache shards rebuilt after accepted node updates or expiry."@,
        MetricKind::Counter,
        c.merge_cache_shard_rebuilds as nat,
    );
    let page = with_counters(before, c);
    assert(page == t5);
    lemma_goes_on_self(page);
    lemma_goes_on_further(t4, t5, page);
    lemma_goes_on_further(t3, t4, page);
    lemma_goes_on_further(t2, t3, page);
    lemma_goes_on_further(t1, t2, page);
    lemma_goes_on_further(t0, t1, page);
    lemma_goes_on_further(before, t0, page);
    lemma_still_mentioned(
        t0,
        page,
        sample("flowsketch_gateway_pushes_total"@, c.pushes_total as nat),
    );
    lemma_still_mentioned(
        t1,
        page,
        sample("flowsketch_gateway_snapshots_accepted_total"@, c.snapshots_accepted as nat),
    );
    lemma_still_mentioned(
        t2,
        page,
        sample("flowsketch_gateway_snapshots_rejected_total"@, c.snapshots_rejected as nat),
    );
    lemma_still_mentioned(
        t3,
        page,
        sample("flowsketch_gateway_node_admission_rejections_total"@, c.node_admission_rejections as nat),
    );
    lemma_still_mentioned(
        t4,
        page,
        sample("flowsketch_gateway_body_budget_rejections_total"@, c.body_budget_rejections as nat),
    );
    lemma_still_mentioned(
        t5,
        page,
        sample("flowsketch_gateway_merge_cache_shard_rebuilds_total"@, c.merge_cache_shard_rebuilds as nat),
    );
}

/// What a line shows of a merge.
pub open spec fn number_of(m: MergedView, what: Shown) -> nat {
    match what {
        Shown::Known => m.nodes_known,
        Shown::Merged => m.nodes_merged,
        Shown::Complete => if m.nodes_merged == m.nodes_known {
            1
        } else {
            0
        },
    }
}

proof fn lemma_queries(before: Seq<char>, name: Seq<char>, merged: Seq<MergedView>, what: Shown)
    ensures
        goes_on(before, with_queries(before, name, merged, what)),
        forall|i: int|
            0 <= i < merged.len() ==> mentions(
                with_queries(before, name, merged, what),
                labelled(
                    name,
                    "query"@,
                    (#[trigger] merged[i]).query_name,
                    number_of(merged[i], what),
                ),
            ),
    decreases merged.len(),
{
    if merged.len() == 0 {
        lemma_goes_on_self(before);
    } else {
        let front = with_queries(before, name, merged.drop_last(), what);
        let page = with_queries(before, name, merged, what);
        let last = merged.last();
        lemma_queries(before, name, merged.drop_last(), what);
        lemma_labelled(front, name, "query"@, last.query_name, number_of(last, what));
        lemma_goes_on_further(before, front, page);
        assert forall|i: int| 0 <= i < merged.len() implies mentions(
            page,
            labelled(
                name,
                "query"@,
                (#[trigger] merged[i]).query_name,
                number_of(merged[i], what),
            ),
        ) by {
            if i < merged.len() - 1 {
                assert(merged.drop_last()[i] == merged[i]);
                lemma_still_mentioned(
                    front,
                    page,
                    labelled(name, "query"@, merged[i].query_name, number_of(merged[i], what)),
                );
            }
        }
    }
}

/// The page shows of every query how many nodes have a snapshot of it, how many
/// of them are merged and whether those are all; and how many nodes and queries
/// there are, how many nodes there may be, and how long the gateway has been
/// up.
#[verifier::rlimit(40)]
pub proof fn law_gateway_gauges_are_shown(
    before: Seq<char>,
    merged: Seq<MergedView>,
    nodes: nat,
    capacity: nat,
    queries: nat,
    uptime: nat,
)
    ensures
        ({
            let page = with_gauges(before, merged, nodes, capacity, queries, uptime);
            &&& goes_on(before, page)
            &&& mentions(page, sample("flowsketch_gateway_nodes_tracked"@, nodes))
            &&& mentions(page, sample("flowsketch_gateway_nodes_capacity"@, capacity))
            &&& mentions(page, sample("flowsketch_gateway_merge_cache_shards"@, 16))
            &&& mentions(page, sample("flowsketch_gateway_queries_active"@, queries))
            &&& mentions(page, sample("flowsketch_gateway_uptime_seconds"@, uptime))
            &&& forall|i: int|
                0 <= i < merged.len() ==> {
                    let m = #[trigger] merged[i];
                    &&& mentions(
                        page,
                        labelled(
                            "flowsketch_gateway_nodes_known"@,
                            "query"@,
                            m.query_name,
                            m.nodes_known,
                        ),
                    )
                    &&& mentions(
                        page,
                        labelled(
                            "flowsketch_gateway_nodes_merged"@,
                            "query"@,
                            m.query_name,
                            m.nodes_merged,
                        ),
                    )
                    &&& m.nodes_merged == m.nodes_known ==> mentions(
                        page,
                        labelled("flowsketch_gateway_merge_complete"@, "query"@, m.query_name, 1),
                    )
                    &&& m.nodes_merged != m.nodes_known ==> mentions(
                        page,
                        labelled("flowsketch_gateway_merge_complete"@, "query"@, m.query_name, 0),
                    )
                }
        }),
{
    let gauge = MetricKind::Gauge;
    let known = "flowsketch_gateway_nodes_known"@;
    let complete = "flowsketch_gateway_merge_complete"@;
    let all = "flowsketch_gateway_nodes_merged"@;
    let t0 = lemma_header(before, known, "Nodes with a live snapshot for this query."@, gauge);
    let t1 = with_queries(t0, known, merged, Shown::Known);
    lemma_queries(t0, known, merged, Shown::Known);
    let t2 = lemma_metric(
        t1,
        "flowsketch_gateway_nodes_tracked"@,
        "Unique live node identities retained by the gateway."@,
        gauge,
        nodes,
    );
    let t3 = lemma_metric(
        t2,
        "flowsketch_gateway_nodes_capacity"@,
        "Configured hard limit on live node identities."@,
        gauge,
        capacity,
    );
    let t4 = lemma_metric(
        t3,
        "flowsketch_gateway_merge_cache_shards"@,
        "Fixed upper bound on sketch states merged after a cache miss, independent of node count."@,
        gauge,
        16,
    );
    let t5 = lemma_header(
        t4,
        complete,
        "Whether every live node was included in the exported window; incomplete merges suppress cluster estimates."@,
        gauge,
    );
    let t6 = with_queries(t5, complete, merged, Shown::Complete);
    lemma_queries(t5, complete, merged, Shown::Complete);
    let t7 = lemma_header(
        t6,
        all,
        "Nodes merged into this query's newest window (nodes on other window boundaries are excluded)."@,
        gauge,
    );
    let t8 = with_queries(t7, all, merged, Shown::Merged);
    lemma_queries(t7, all, merged, Shown::Merged);
    let t9 = lemma_metric(
        t8,
        "flowsketch_gateway_queries_active"@,
        "Queries this gateway merges."@,
        gauge,
        queries,
    );
    let page = lemma_metric(
        t9,
        "flowsketch_gateway_uptime_seconds"@,
        "Seconds since gateway start."@,
        gauge,
        uptime,
    );
    assert(page == with_gauges(before, merged, nodes, capacity, queries, uptime));
    lemma_goes_on_further(t8, t9, page);
    lemma_goes_on_further(t7, t8, page);
    lemma_goes_on_further(t6, t7, page);
    lemma_goes_on_further(t5, t6, page);
    lemma_goes_on_further(t4, t5, page);
    lemma_goes_on_further(t3, t4, page);
    lemma_goes_on_further(t2, t3, page);
    lemma_goes_on_further(t1, t2, page);
    lemma_goes_on_further(t0, t1, page);
    lemma_goes_on_further(before, t0, page);
    lemma_still_mentioned(t2, page, sample("flowsketch_gateway_nodes_tracked"@, nodes));
    lemma_still_mentioned(t3, page, sample("flowsketch_gateway_nodes_capacity"@, capacity));
    lemma_still_mentioned(t4, page, sample("flowsketch_gateway_merge_cache_shards"@, 16));
    lemma_still_mentioned(t9, page, sample("flowsketch_gateway_queries_active"@, queries));
    assert forall|i: int| 0 <= i < merged.len() implies {
        let m = #[trigger] merged[i];
        &&& mentions(page, labelled(known, "query"@, m.query_name, m.nodes_known))
        &&& mentions(page, labelled(all, "query"@, m.query_name, m.nodes_merged))
        &&& mentions(
            page,
            labelled(complete, "query"@, m.query_name, number_of(m, Shown::Complete)),
        )
    } by {
        let m = merged[i];
        lemma_still_mentioned(t1, page, labelled(known, "query"@, m.query_name, m.nodes_known));
        lemma_still_mentioned(t8, page, labelled(all, "query"@, m.query_name, m.nodes_merged));
        lemma_still_mentioned(
            t6,
            page,
            labelled(complete, "query"@, m.query_name, number_of(m, Shown::Complete)),
        );
    }
}

/// The estimates of queries that are merged completely.
pub open spec fn of_complete_queries(merged: Seq<MergedView>) -> spec_fn(SketchEstimate) -> bool {
    |e: SketchEstimate| is_complete(merged, e.query_name@)
}

/// Published are exactly the estimates of complete merges, in their order, each
/// with the value that belongs to it.
pub proof fn law_published_estimates_keep_their_values(
    es: Seq<SketchEstimate>,
    shown: Seq<String>,
    merged: Seq<MergedView>,
)
    requires
        es.len() == shown.len(),
    ensures
        complete_only(es, merged) == es.filter(of_complete_queries(merged)),
        complete_values(es, shown, merged).len() == complete_only(es, merged).len(),
        forall|k: int|
            0 <= k < complete_only(es, merged).len() ==> exists|i: int|
                #![trigger es[i]]
                0 <= i < es.len() && es[i] == #[trigger] complete_only(es, merged)[k] && shown[i]
                    == complete_values(es, shown, merged)[k],
    decreases es.len(),
{
    reveal(Seq::filter);
    if es.len() > 0 {
        let f = es.drop_last();
        let g = shown.drop_last();
        law_published_estimates_keep_their_values(f, g, merged);
        let all = complete_only(es, merged);
        let before = complete_only(f, merged);
        assert forall|k: int| 0 <= k < all.len() implies exists|i: int|
            #![trigger es[i]]
            0 <= i < es.len() && es[i] == #[trigger] all[k] && shown[i] == complete_values(
                es,
                shown,
                merged,
            )[k] by {
            if k < before.len() {
                assert(all[k] == before[k]);
                let i = choose|i: int|
                    #![trigger f[i]]
                    0 <= i < f.len() && f[i] == before[k] && g[i] == complete_values(
                        f,
                        g,
                        merged,
                    )[k];
                assert(es[i] == f[i] && shown[i] == g[i]);
                assert(complete_values(es, shown, merged)[k] == complete_values(f, g, merged)[k]);
            } else {
                let i = es.len() - 1;
                assert(es[i] == all[k]);
                assert(shown[i] == complete_values(es, shown, merged)[k]);
            }
        }
    }
}

} // verus!
