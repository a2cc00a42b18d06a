//! What a gateway does with requests, with its settings and with the outcome of
//! a push, and what it shows of its nodes.

use vstd::prelude::*;
use vstd::string::*;

use crate::gateway::batch::PushEntry;
use crate::gateway::client::{is_next, PushClientError};
use crate::gateway::config::{nodes_meant, staleness_meant};
use crate::gateway::http::{entries_of, routed, RouteView};
use crate::gateway::nodes::{age, query_shown};
use crate::gateway::queries::QueryView;
use crate::net::retry::{wait_before, Step};

verus! {

/// Snapshots are received exactly by a POST to their path with a body of one
/// byte to 64 MiB, and what is received is as long as was declared. An empty
/// body is a bad request, a longer one too large; anything else but a GET is
/// not allowed; and only five paths can be read.
pub proof fn law_requests_go_where_they_belong(
    method: Seq<char>,
    path: Seq<char>,
    content_length: u64,
)
    ensures
        ({
            let r = routed(method, path, content_length);
            let push = method == "POST"@ && path == "/v1/snapshots"@;
            let get = method == "GET"@;
            &&& r is ReceiveSnapshots <==> push && 1 <= content_length <= 67_108_864
            &&& r matches RouteView::ReceiveSnapshots(n) ==> n == content_length
            &&& push && content_length == 0 ==> (r matches RouteView::Answer(a) && a.status == 400)
            &&& push && content_length > 67_108_864 ==> (r matches RouteView::Answer(a) && a.status
                == 413)
            &&& !push && !get ==> (r matches RouteView::Answer(a) && a.status == 405)
            &&& get && !push && path == "/healthz"@ ==> (r matches RouteView::Answer(a) && a.status
                == 200)
            &&& r is Metrics ==> get && path == "/metrics"@
            &&& r is Queries ==> get && path == "/v1/queries"@
            &&& r is Nodes ==> get && path == "/v1/nodes"@
            &&& get && !push && path != "/healthz"@ && path != "/readyz"@ && path != "/metrics"@
                && path != "/v1/queries"@ && path != "/v1/nodes"@ ==> (r matches RouteView::Answer(
                a,
            ) && a.status == 404)
        }),
{
    reveal_strlit("POST");
    reveal_strlit("GET");
    assert("POST"@.len() == 4 && "GET"@.len() == 3);
}

/// What can be read is answered: the page, the queries, the nodes, and whether
/// the gateway lives and is ready.
pub proof fn law_paths_are_answered(content_length: u64)
    ensures
        routed("GET"@, "/metrics"@, content_length) is Metrics,
        routed("GET"@, "/v1/queries"@, content_length) is Queries,
        routed("GET"@, "/v1/nodes"@, content_length) is Nodes,
        routed("GET"@, "/healthz"@, content_length) matches RouteView::Answer(a) && a.status == 200
            && a.body == "ok\n"@,
        routed("GET"@, "/readyz"@, content_length) matches RouteView::Answer(a) && a.status == 200
            && a.body == "ready\n"@,
{
    reveal_strlit("POST");
    reveal_strlit("GET");
    reveal_strlit("/metrics");
    reveal_strlit("/v1/queries");
    reveal_strlit("/v1/nodes");
    reveal_strlit("/healthz");
    reveal_strlit("/readyz");
    assert("POST"@.len() == 4 && "GET"@.len() == 3);
    assert("/metrics"@.len() == 8 && "/healthz"@.len() == 8 && "/readyz"@.len() == 7
        && "/v1/queries"@.len() == 11 && "/v1/nodes"@.len() == 9);
    assert("/metrics"@[1] == 'm' && "/healthz"@[1] == 'h');
}

/// The places of a query are those of its entries, each once, in their order.
pub proof fn law_entries_belong_to_their_query(entries: Seq<PushEntry>, query: Seq<char>, n: nat)
    requires
        n <= entries.len(),
    ensures
        ({
            let places = entries_of(entries, query, n);
            &&& forall|i: int| #[trigger]
                places.contains(i) <==> 0 <= i < n && entries[i].query_name@ == query
            &&& forall|a: int, b: int| 0 <= a < b < places.len() ==> places[a] < places[b]
        }),
    decreases n,
{
    if n > 0 {
        let before = entries_of(entries, query, (n - 1) as nat);
        law_entries_belong_to_their_query(entries, query, (n - 1) as nat);
        let all = entries_of(entries, query, n);
        if entries[n - 1].query_name@ == query {
            assert(all[all.len() - 1] == n - 1);
            assert forall|i: int| #[trigger] all.contains(i) <==> 0 <= i < n
                && entries[i].query_name@ == query by {
                if all.contains(i) {
                    let k = choose|k: int| 0 <= k < all.len() && all[k] == i;
                    if k < before.len() {
                        assert(before[k] == i);
                        assert(before.contains(i));
                    }
                }
                if before.contains(i) {
                    let k = choose|k: int| 0 <= k < before.len() && before[k] == i;
                    assert(all[k] == i);
                }
            }
            assert forall|a: int, b: int| 0 <= a < b < all.len() implies all[a] < all[b] by {
                assert(before.contains(before[a]));
            }
        }
    }
}

/// A push is done after success and given up after a refusal or a bad address.
/// After overload or a failure on the way it is tried again, after 200 and then
/// 800 milliseconds, and given up with the third attempt.
pub proof fn law_pushes_are_tried_three_times(
    attempt: u32,
    outcome: Result<u16, PushClientError>,
    step: Step<PushClientError>,
)
    requires
        attempt < 3,
        is_next(attempt, outcome, step),
    ensures
        ({
            let done = outcome matches Ok(s) && 200 <= s < 300;
            let busy = outcome matches Ok(s) && (s == 429 || 502 <= s <= 504);
            let lost = outcome matches Err(e) && !(e is BadEndpoint);
            &&& done <==> (step matches Step::Finished(Ok(_)))
            &&& step is Again <==> (busy || lost) && attempt < 2
            &&& step matches Step::Again(ms) ==> ms == (if attempt == 0 {
                200int
            } else {
                800
            })
            &&& (step matches Step::Finished(Err(PushClientError::RetriesExhausted { attempts, .. }))
                && attempts == 3) <== (busy || lost) && attempt == 2
            &&& outcome matches Ok(s) ==> (!done && !busy ==> (step matches Step::Finished(
                Err(PushClientError::Status(t)),
            ) && t == s))
        }),
{
    reveal_with_fuel(wait_before, 3);
}

/// Nodes are forgotten as late as stated, after a second at the earliest and
/// after five minutes by default; as many are kept as stated, 128 by default.
pub proof fn law_limits_are_as_stated(ms: Option<u64>, nodes: Option<usize>)
    ensures
        ms is None ==> staleness_meant(ms) == 300_000,
        ms matches Some(n) ==> staleness_meant(ms) == vstd::math::max(n as int, 1_000),
        nodes is None ==> nodes_meant(nodes) == 128,
        nodes matches Some(n) ==> nodes_meant(nodes) == n,
{
}

/// Every node of a query is shown in its place, with its own window and with
/// the whole seconds since it was heard of.
pub proof fn law_nodes_are_shown_as_they_are(q: QueryView, now: u64)
    ensures
        query_shown(q, now).query == q.query,
        query_shown(q, now).nodes.len() == q.nodes.len(),
        forall|i: int|
            0 <= i < q.nodes.len() ==> {
                let shown = query_shown(q, now).nodes[i];
                let w = #[trigger] q.nodes[i];
                &&& shown.node == w.node
                &&& shown.window_start_nanos == w.start
                &&& shown.window_end_nanos == w.end
                &&& shown.token == w.token
                &&& now >= w.received ==> shown.age_seconds * 1_000_000_000 <= now - w.received
                    < (shown.age_seconds + 1) * 1_000_000_000
                &&& now < w.received ==> shown.age_seconds == 0
            },
{
    assert forall|i: int| 0 <= i < q.nodes.len() implies {
        let shown = query_shown(q, now).nodes[i];
        let w = #[trigger] q.nodes[i];
        now >= w.received ==> shown.age_seconds * 1_000_000_000 <= now - w.received < (
        shown.age_seconds + 1) * 1_000_000_000
    } by {
        let w = q.nodes[i];
        assert(query_shown(q, now).nodes[i].age_seconds == age(w.received, now));
    }
}

} // verus!
