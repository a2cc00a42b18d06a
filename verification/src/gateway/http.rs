//! What the gateway answers to requests.

use vstd::prelude::*;
use vstd::string::*;

use crate::gateway::batch::PushEntry;
use crate::gateway::state::ApplyResult;
use crate::names::{add_name, law_sorted_names, sorted_names};
use crate::net::reply::{plain_reply, Reply, ReplyView};
use crate::text::{same_text, texts};

verus! {

/// Most bytes of a pushed batch. Sketches are planned within budgets far below
/// it: a larger push is corrupt.
pub const MAX_BODY_BYTES: u64 = 67_108_864;

/// What is done with a request.
#[derive(Debug)]
pub enum Route {
    /// Read this many bytes and apply them as a batch.
    ReceiveSnapshots(u64),
    Metrics,
    Queries,
    Nodes,
    Answer(Reply),
}

/// The content of a [`Route`].
pub ghost enum RouteView {
    ReceiveSnapshots(u64),
    Metrics,
    Queries,
    Nodes,
    Answer(ReplyView),
}

impl View for Route {
    type V = RouteView;

    open spec fn view(&self) -> RouteView {
        match *self {
            Route::ReceiveSnapshots(n) => RouteView::ReceiveSnapshots(n),
            Route::Metrics => RouteView::Metrics,
            Route::Queries => RouteView::Queries,
            Route::Nodes => RouteView::Nodes,
            Route::Answer(reply) => RouteView::Answer(reply@),
        }
    }
}

/// What is done with a request that declares a body of `content_length` bytes.
pub open spec fn routed(method: Seq<char>, path: Seq<char>, content_length: u64) -> RouteView {
    if method == "POST"@ && path == "/v1/snapshots"@ {
        if content_length == 0 {
            RouteView::Answer(plain_reply(400, "empty body\n"@))
        } else if content_length > MAX_BODY_BYTES {
            RouteView::Answer(plain_reply(413, "body too large\n"@))
        } else {
            RouteView::ReceiveSnapshots(content_length)
        }
    } else if method != "GET"@ {
        RouteView::Answer(plain_reply(405, "method not allowed\n"@))
    } else if path == "/healthz"@ {
        RouteView::Answer(plain_reply(200, "ok\n"@))
    } else if path == "/readyz"@ {
        RouteView::Answer(plain_reply(200, "ready\n"@))
    } else if path == "/metrics"@ {
        RouteView::Metrics
    } else if path == "/v1/queries"@ {
        RouteView::Queries
    } else if path == "/v1/nodes"@ {
        RouteView::Nodes
    } else {
        RouteView::Answer(plain_reply(404, "not found\n"@))
    }
}

/// What to do with a request.
pub fn route(method: &str, path: &str, content_length: u64) -> (r: Route)
    ensures
        r@ == routed(method@, path@, content_length),
{
    if same_text(method, "POST") && same_text(path, "/v1/snapshots") {
        return if content_length == 0 {
            Route::Answer(Reply::plain(400, "empty body\n"))
        } else if content_length > MAX_BODY_BYTES {
            Route::Answer(Reply::plain(413, "body too large\n"))
        } else {
            Route::ReceiveSnapshots(content_length)
        };
    }
    if !same_text(method, "GET") {
        Route::Answer(Reply::plain(405, "method not allowed\n"))
    } else if same_text(path, "/healthz") {
        Route::Answer(Reply::plain(200, "ok\n"))
    } else if same_text(path, "/readyz") {
        Route::Answer(Reply::plain(200, "ready\n"))
    } else if same_text(path, "/metrics") {
        Route::Metrics
    } else if same_text(path, "/v1/queries") {
        Route::Queries
    } else if same_text(path, "/v1/nodes") {
        Route::Nodes
    } else {
        Route::Answer(Reply::plain(404, "not found\n"))
    }
}

/// The answer to a body that ends early.
pub fn truncated_body() -> (r: Reply)
    ensures
        r@ == plain_reply(400, "truncated body\n"@),
{
    Reply::plain(400, "truncated body\n")
}

/// The answer to a body that is no batch.
pub fn invalid_batch(error: &str) -> (r: Reply)
    ensures
        r@ == plain_reply(400, "invalid push batch: "@ + error@ + "\n"@),
{
    let mut body = "invalid push batch: ".to_owned();
    body.append(error);
    body.append("\n");
    Reply::plain(400, body.as_str())
}

/// The status of the answer to a batch. Where nothing was usable the pusher is
/// at fault; a partial success is a success, and its refusals are listed.
pub fn push_status(result: &ApplyResult) -> (r: u16)
    ensures
        r == (if result.accepted == 0 && result.rejected@.len() > 0 {
            400u16
        } else {
            200u16
        }),
{
    if result.accepted == 0 && result.rejected.len() > 0 {
        400
    } else {
        200
    }
}

// ---------------------------------------------------------------------------
// The queries of a batch
// ---------------------------------------------------------------------------

/// The query names of entries.
pub open spec fn entry_names(entries: Seq<PushEntry>) -> Seq<Seq<char>> {
    entries.map_values(|e: PushEntry| e.query_name@)
}

/// Places of the first `n` entries that belong to a query, in order.
pub open spec fn entries_of(entries: Seq<PushEntry>, query: Seq<char>, n: nat) -> Seq<int>
    decreases n,
{
    if n == 0 {
        Seq::empty()
    } else if entries[n - 1].query_name@ == query {
        entries_of(entries, query, (n - 1) as nat).push(n - 1)
    } else {
        entries_of(entries, query, (n - 1) as nat)
    }
}

/// The entries of one query.
#[derive(Debug)]
pub struct QueryEntries {
    pub query: String,
    /// Places in the batch.
    pub places: Vec<usize>,
}

pub open spec fn group_names(groups: Seq<QueryEntries>) -> Seq<Seq<char>> {
    groups.map_values(|g: QueryEntries| g.query@)
}

fn places_of_query(entries: &[PushEntry], query: &str) -> (r: Vec<usize>)
    ensures
        r@.map_values(|i: usize| i as int) == entries_of(entries@, query@, entries@.len()),
{
    let mut out: Vec<usize> = Vec::new();
    let mut n: usize = 0;
    assert(out@.map_values(|i: usize| i as int) =~= Seq::<int>::empty());
    while n < entries.len()
        invariant
            n <= entries@.len(),
            out@.map_values(|i: usize| i as int) == entries_of(entries@, query@, n as nat),
        decreases entries@.len() - n,
    {
        if same_text(entries[n].query_name.as_str(), query) {
            let ghost before = out@.map_values(|i: usize| i as int);
            out.push(n);
            assert(out@.map_values(|i: usize| i as int) =~= before.push(n as int));
        }
        n += 1;
    }
    out
}

/// The entries of a batch, query by query in the order of their names.
pub fn group_entries(entries: &[PushEntry]) -> (r: Vec<QueryEntries>)
    ensures
        group_names(r@) == sorted_names(entry_names(entries@)),
        forall|i: int|
            0 <= i < r@.len() ==> (#[trigger] r@[i]).places@.map_values(|i: usize| i as int)
                == entries_of(entries@, r@[i].query@, entries@.len()),
{
    let ghost all = entry_names(entries@);
    let mut names: Vec<String> = Vec::new();
    let mut n: usize = 0;
    assert(texts(names@) =~= sorted_names(all.take(0)));
    while n < entries.len()
        invariant
            n <= entries@.len(),
            all == entry_names(entries@),
            texts(names@) == sorted_names(all.take(n as int)),
        decreases entries@.len() - n,
    {
        assert(all.take(n + 1).drop_last() =~= all.take(n as int));
        add_name(&mut names, entries[n].query_name.as_str());
        n += 1;
    }
    assert(all.take(n as int) =~= all);
    let ghost sorted = texts(names@);
    let mut out: Vec<QueryEntries> = Vec::new();
    let mut k: usize = 0;
    assert(group_names(out@) =~= sorted.take(0));
    while k < names.len()
        invariant
            k <= names@.len(),
            sorted == texts(names@),
            group_names(out@) == sorted.take(k as int),
            forall|i: int|
                0 <= i < out@.len() ==> (#[trigger] out@[i]).places@.map_values(|i: usize| i as int)
                    == entries_of(entries@, out@[i].query@, entries@.len()),
        decreases names@.len() - k,
    {
        let query = names[k].as_str().to_owned();
        let places = places_of_query(entries, query.as_str());
        let ghost before = group_names(out@);
        out.push(QueryEntries { query, places });
        assert(sorted[k as int] == query@);
        assert(group_names(out@) =~= before.push(query@));
        assert(group_names(out@) =~= sorted.take(k + 1));
        k += 1;
    }
    assert(sorted.take(k as int) =~= sorted);
    out
}

/// No entry of a batch is lost: each belongs to the query that it names.
pub proof fn law_no_entry_is_lost(entries: Seq<PushEntry>, i: int)
    requires
        0 <= i < entries.len(),
    ensures
        sorted_names(entry_names(entries)).contains(entries[i].query_name@),
        entries_of(entries, entries[i].query_name@, entries.len()).contains(i),
{
    let all = entry_names(entries);
    law_sorted_names(all);
    assert(all[i] == entries[i].query_name@);
    assert(all.contains(entries[i].query_name@));
    lemma_entry_is_there(entries, i, entries.len());
}

proof fn lemma_entry_is_there(entries: Seq<PushEntry>, i: int, n: nat)
    requires
        0 <= i < n <= entries.len(),
    ensures
        entries_of(entries, entries[i].query_name@, n).contains(i),
    decreases n,
{
    let query = entries[i].query_name@;
    let all = entries_of(entries, query, n);
    let before = entries_of(entries, query, (n - 1) as nat);
    if i == n - 1 {
        assert(all[all.len() - 1] == i);
    } else {
        lemma_entry_is_there(entries, i, (n - 1) as nat);
        let k = choose|k: int| 0 <= k < before.len() && before[k] == i;
        assert(all[k] == i);
    }
}

} // verus!
