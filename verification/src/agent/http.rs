//! What the agent answers to requests.

use vstd::prelude::*;
use vstd::string::*;

use crate::agent::state::PublishedState;
use crate::net::reply::{metrics_type, plain_reply, Reply, ReplyView};
use crate::prometheus::{exposition, render, QueryExportInfo};
use crate::text::same_text;

verus! {

/// What is done with a request.
#[derive(Debug)]
pub enum Route {
    Metrics,
    Queries,
    Answer(Reply),
}

/// The content of a [`Route`].
pub ghost enum RouteView {
    Metrics,
    Queries,
    Answer(ReplyView),
}

impl View for Route {
    type V = RouteView;

    open spec fn view(&self) -> RouteView {
        match *self {
            Route::Metrics => RouteView::Metrics,
            Route::Queries => RouteView::Queries,
            Route::Answer(reply) => RouteView::Answer(reply@),
        }
    }
}

/// What is done with a request. A source that has failed makes the agent
/// neither healthy nor ready.
pub open spec fn routed(
    method: Seq<char>,
    path: Seq<char>,
    source_error: Option<Seq<char>>,
    ready: bool,
) -> RouteView {
    if method != "GET"@ {
        RouteView::Answer(plain_reply(405, "method not allowed\n"@))
    } else if path == "/healthz"@ {
        match source_error {
            Some(e) => RouteView::Answer(
                plain_reply(503, "capture source failed: "@ + e + "\n"@),
            ),
            None => RouteView::Answer(plain_reply(200, "ok\n"@)),
        }
    } else if path == "/readyz"@ {
        if source_error is Some {
            RouteView::Answer(plain_reply(503, "capture source failed\n"@))
        } else if ready {
            RouteView::Answer(plain_reply(200, "ready\n"@))
        } else {
            RouteView::Answer(plain_reply(503, "starting\n"@))
        }
    } else if path == "/metrics"@ {
        RouteView::Metrics
    } else if path == "/v1/queries"@ {
        RouteView::Queries
    } else {
        RouteView::Answer(plain_reply(404, "not found\n"@))
    }
}

pub open spec fn error_text(e: Option<String>) -> Option<Seq<char>> {
    match e {
        Some(s) => Some(s@),
        None => None,
    }
}

/// What to do with a request.
pub fn route(method: &str, path: &str, state: &PublishedState) -> (r: Route)
    ensures
        r@ == routed(method@, path@, error_text(state.source_error), state.ready),
{
    if !same_text(method, "GET") {
        Route::Answer(Reply::plain(405, "method not allowed\n"))
    } else if same_text(path, "/healthz") {
        match &state.source_error {
            Some(e) => {
                let mut body = "capture source failed: ".to_owned();
                body.append(e.as_str());
                body.append("\n");
                Route::Answer(Reply::plain(503, body.as_str()))
            },
            None => Route::Answer(Reply::plain(200, "ok\n")),
        }
    } else if same_text(path, "/readyz") {
        if state.source_error.is_some() {
            Route::Answer(Reply::plain(503, "capture source failed\n"))
        } else if state.ready {
            Route::Answer(Reply::plain(200, "ready\n"))
        } else {
            Route::Answer(Reply::plain(503, "starting\n"))
        }
    } else if same_text(path, "/metrics") {
        Route::Metrics
    } else if same_text(path, "/v1/queries") {
        Route::Queries
    } else {
        Route::Answer(Reply::plain(404, "not found\n"))
    }
}

impl PublishedState {
    /// The page of metrics: the newest estimates, then the agent's health.
    /// `shown` holds the value of each estimate as text.
    pub fn metrics_reply(
        &self,
        shown: &[String],
        info: &[(String, QueryExportInfo)],
        uptime_seconds: u64,
    ) -> (r: Reply)
        requires
            shown@.len() == self.latest@.len(),
        ensures
            r@ == (ReplyView {
                status: 200,
                content_type: metrics_type(),
                body: exposition(self.latest@, shown@, info@) + self.health_text(
                    uptime_seconds as nat,
                ),
            }),
    {
        let (mut body, _) = render(self.latest.as_slice(), shown, info);
        let health = self.render_health_metrics(uptime_seconds);
        body.append(health.as_str());
        Reply { status: 200, content_type: "text/plain; version=0.0.4".to_owned(), body }
    }
}

/// A failed source is never reported as healthy or ready.
pub proof fn law_failed_source_is_reported(error: Seq<char>, ready: bool)
    ensures
        routed("GET"@, "/healthz"@, Some(error), ready) matches RouteView::Answer(a) && a.status
            == 503,
        routed("GET"@, "/readyz"@, Some(error), ready) matches RouteView::Answer(a) && a.status
            == 503,
{
    reveal_strlit("/healthz");
    reveal_strlit("/readyz");
    assert("/healthz"@.len() != "/readyz"@.len());
}

} // verus!
