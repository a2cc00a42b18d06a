//! How a run of the agent ends, when its exporters wait, and what they have
//! sent.

use vstd::prelude::*;
use vstd::string::*;

use crate::agent::error::AgentError;
use crate::estimate::SketchEstimate;
use crate::text::{dec, push_decimal, same_text};

verus! {

// ---------------------------------------------------------------------------
// The end of a run
// ---------------------------------------------------------------------------

/// How the server thread ended.
#[derive(Debug)]
pub enum ServerEnd {
    Clean,
    Failed(String),
    Panicked,
}

/// What the runtime and the capture thread come to: the failure of the runtime
/// counts first.
pub open spec fn both(runtime: Result<(), AgentError>, capture: Result<(), AgentError>) -> Result<
    (),
    AgentError,
> {
    if runtime is Err {
        runtime
    } else {
        capture
    }
}

/// What the runtime and the capture thread come to.
pub fn work_result(runtime: Result<(), AgentError>, capture: Result<(), AgentError>) -> (r: Result<
    (),
    AgentError,
>)
    ensures
        r == both(runtime, capture),
{
    match runtime {
        Err(e) => Err(e),
        Ok(()) => capture,
    }
}

/// The result of a capture thread that panicked.
pub fn capture_panicked() -> (r: AgentError)
    ensures
        r matches AgentError::Source(m) && m@ == "capture thread panicked"@,
{
    AgentError::Source("capture thread panicked".to_owned())
}

/// Whether `r` is a result after the server has ended so: an earlier failure
/// stays.
pub open spec fn is_after_server(
    before: Result<(), AgentError>,
    end: ServerEnd,
    r: Result<(), AgentError>,
) -> bool {
    if before is Err {
        r == before
    } else {
        match end {
            ServerEnd::Clean => r is Ok,
            ServerEnd::Failed(e) => r matches Err(AgentError::Http(m)) && m@
                == "agent HTTP shutdown failed: "@ + e@,
            ServerEnd::Panicked => r matches Err(AgentError::Http(m)) && m@
                == "agent HTTP thread panicked"@,
        }
    }
}

/// The result after the server has ended.
pub fn after_server(before: Result<(), AgentError>, end: ServerEnd) -> (r: Result<(), AgentError>)
    ensures
        is_after_server(before, end, r),
{
    match before {
        Err(e) => Err(e),
        Ok(()) => match end {
            ServerEnd::Clean => Ok(()),
            ServerEnd::Failed(e) => {
                let mut m = "agent HTTP shutdown failed: ".to_owned();
                m.append(e.as_str());
                Err(AgentError::Http(m))
            },
            ServerEnd::Panicked => Err(AgentError::Http("agent HTTP thread panicked".to_owned())),
        },
    }
}

/// The result after an exporter has ended.
pub fn after_exporter(before: Result<(), AgentError>, panicked: bool) -> (r: Result<
    (),
    AgentError,
>)
    ensures
        if before is Err || !panicked {
            r == before
        } else {
            r matches Err(AgentError::Source(m)) && m@ == "agent exporter thread panicked"@
        },
{
    if panicked && before.is_ok() {
        Err(AgentError::Source("agent exporter thread panicked".to_owned()))
    } else {
        before
    }
}

// ---------------------------------------------------------------------------
// Waiting
// ---------------------------------------------------------------------------

/// Longest time between two looks at whether to stop.
pub const LONGEST_NAP_MS: u64 = 100;

/// What a thread that works at intervals does.
#[derive(Debug, Clone, Copy, PartialEq, Eq, Structural)]
pub enum IntervalStep {
    /// Work once more, then stop.
    Stop,
    /// Work.
    Due,
    /// Sleep so many milliseconds.
    Sleep(u64),
}

/// What a thread that works at intervals does.
pub fn interval_step(elapsed_ms: u64, interval_ms: u64, shutdown: bool) -> (r: IntervalStep)
    ensures
        shutdown ==> r == IntervalStep::Stop,
        !shutdown && elapsed_ms >= interval_ms ==> r == IntervalStep::Due,
        !shutdown && elapsed_ms < interval_ms ==> r == IntervalStep::Sleep(
            if interval_ms - elapsed_ms < LONGEST_NAP_MS {
                (interval_ms - elapsed_ms) as u64
            } else {
                LONGEST_NAP_MS
            },
        ),
{
    if shutdown {
        IntervalStep::Stop
    } else if elapsed_ms >= interval_ms {
        IntervalStep::Due
    } else if interval_ms - elapsed_ms < LONGEST_NAP_MS {
        IntervalStep::Sleep(interval_ms - elapsed_ms)
    } else {
        IntervalStep::Sleep(LONGEST_NAP_MS)
    }
}

/// What a server does that waits for its connections to end.
#[derive(Debug)]
pub enum DrainStep {
    Done,
    Sleep,
    /// Some did not end in time.
    TimedOut(String),
}

/// What a server does that waits for its connections to end.
pub fn drain_step(active: usize, elapsed_ms: u64, timeout_ms: u64) -> (r: DrainStep)
    ensures
        if active == 0 {
            r is Done
        } else if elapsed_ms >= timeout_ms {
            r matches DrainStep::TimedOut(m) && m@ == dec(active as nat)
                + " agent HTTP connection(s) did not drain before shutdown"@
        } else {
            r is Sleep
        },
{
    if active == 0 {
        DrainStep::Done
    } else if elapsed_ms >= timeout_ms {
        let mut m = String::new();
        push_decimal(&mut m, active as u64);
        m.append(" agent HTTP connection(s) did not drain before shutdown");
        proof {
            assert(Seq::<char>::empty() + dec(active as nat) =~= dec(active as nat));
        }
        DrainStep::TimedOut(m)
    } else {
        DrainStep::Sleep
    }
}

// ---------------------------------------------------------------------------
// What has been exported
// ---------------------------------------------------------------------------

/// The newest window of every query that has been exported.
pub struct ExportLog {
    sent: Vec<(String, u64)>,
}

/// The end of the newest window of a query that has been exported.
pub open spec fn last_sent(sent: Seq<(Seq<char>, u64)>, query: Seq<char>) -> Option<u64>
    decreases sent.len(),
{
    if sent.len() == 0 {
        None
    } else if sent[0].0 == query {
        Some(sent[0].1)
    } else {
        last_sent(sent.drop_first(), query)
    }
}

/// Whether an estimate is of a newer window than was exported.
pub open spec fn is_unsent(log: Option<u64>, e: SketchEstimate) -> bool {
    log is None || e.window_end_nanos > log->0
}

/// The newest window of a query once a window that ends at `end` was exported.
pub open spec fn noted(log: Option<u64>, end: u64) -> Option<u64> {
    match log {
        Some(last) => Some(
            if last < end {
                end
            } else {
                last
            },
        ),
        None => Some(end),
    }
}

/// A window that was exported is not exported again, and neither is an older
/// one; what is still new was new before.
pub proof fn law_exported_windows_are_not_resent(
    log: Option<u64>,
    sent: SketchEstimate,
    e: SketchEstimate,
)
    ensures
        e.window_end_nanos <= sent.window_end_nanos ==> !is_unsent(
            noted(log, sent.window_end_nanos),
            e,
        ),
        is_unsent(noted(log, sent.window_end_nanos), e) ==> is_unsent(log, e),
        is_unsent(log, e) && e.window_end_nanos > sent.window_end_nanos ==> is_unsent(
            noted(log, sent.window_end_nanos),
            e,
        ),
{
}

impl ExportLog {
    pub closed spec fn entries(&self) -> Seq<(Seq<char>, u64)> {
        self.sent@.map_values(|p: (String, u64)| (p.0@, p.1))
    }

    /// The end of the newest window of a query that has been exported.
    pub open spec fn last(&self, query: Seq<char>) -> Option<u64> {
        last_sent(self.entries(), query)
    }

    pub fn new() -> (r: Self)
        ensures
            forall|q: Seq<char>| #[trigger] r.last(q) is None,
    {
        let r = ExportLog { sent: Vec::new() };
        assert(r.entries() =~= Seq::<(Seq<char>, u64)>::empty());
        r
    }

    fn place(&self, query: &str) -> (r: Option<usize>)
        ensures
            match r {
                Some(i) => i < self.entries().len() && self.entries()[i as int].0 == query@
                    && self.last(query@) == Some(self.entries()[i as int].1) && forall|k: int|
                    0 <= k < i ==> (#[trigger] self.entries()[k]).0 != query@,
                None => self.last(query@) is None && forall|k: int|
                    0 <= k < self.entries().len() ==> (#[trigger] self.entries()[k]).0 != query@,
            },
    {
        let ghost all = self.entries();
        let mut i: usize = 0;
        assert(all.skip(0) =~= all);
        while i < self.sent.len()
            invariant
                i <= self.sent@.len(),
                all == self.entries(),
                last_sent(all.skip(i as int), query@) == last_sent(all, query@),
                forall|k: int| 0 <= k < i ==> (#[trigger] all[k]).0 != query@,
            decreases self.sent@.len() - i,
        {
            assert(all.skip(i as int)[0] == all[i as int]);
            assert(all[i as int].0 == self.sent@[i as int].0@);
            if same_text(self.sent[i].0.as_str(), query) {
                return Some(i);
            }
            assert(all.skip(i as int).drop_first() =~= all.skip(i + 1));
            i += 1;
        }
        None
    }

    /// Whether an estimate is of a newer window than was exported. An idle
    /// agent so goes quiet.
    pub fn is_new(&self, e: &SketchEstimate) -> (r: bool)
        ensures
            r == is_unsent(self.last(e.query_name@), *e),
    {
        match self.place(e.query_name.as_str()) {
            Some(i) => e.window_end_nanos > self.sent[i].1,
            None => true,
        }
    }

    /// Take note that an estimate was exported.
    pub fn note(&mut self, e: &SketchEstimate)
        ensures
            final(self).last(e.query_name@) == noted(
                old(self).last(e.query_name@),
                e.window_end_nanos,
            ),
            forall|q: Seq<char>|
                q != e.query_name@ ==> #[trigger] final(self).last(q) == old(self).last(q),
    {
        let ghost before = self.entries();
        match self.place(e.query_name.as_str()) {
            Some(i) => {
                let held: u64 = self.sent[i].1;
                let end: u64 = if held < e.window_end_nanos {
                    e.window_end_nanos
                } else {
                    held
                };
                self.sent.set(i, (e.query_name.as_str().to_owned(), end));
                proof {
                    let now = self.entries();
                    assert(now =~= before.update(i as int, (e.query_name@, end)));
                    lemma_updated(before, i as int, e.query_name@, end);
                }
            },
            None => {
                self.sent.push((e.query_name.as_str().to_owned(), e.window_end_nanos));
                proof {
                    let now = self.entries();
                    assert(now =~= before.push((e.query_name@, e.window_end_nanos)));
                    lemma_pushed(before, e.query_name@, e.window_end_nanos);
                }
            },
        }
    }
}

proof fn lemma_updated(sent: Seq<(Seq<char>, u64)>, i: int, query: Seq<char>, end: u64)
    requires
        0 <= i < sent.len(),
        sent[i].0 == query,
        forall|k: int| 0 <= k < i ==> (#[trigger] sent[k]).0 != query,
    ensures
        last_sent(sent.update(i, (query, end)), query) == Some(end),
        forall|q: Seq<char>|
            q != query ==> #[trigger] last_sent(sent.update(i, (query, end)), q) == last_sent(
                sent,
                q,
            ),
    decreases sent.len(),
{
    let now = sent.update(i, (query, end));
    if i > 0 {
        let rest = sent.drop_first();
        assert(now.drop_first() =~= rest.update(i - 1, (query, end)));
        assert forall|k: int| 0 <= k < i - 1 implies (#[trigger] rest[k]).0 != query by {
            assert(rest[k] == sent[k + 1]);
        }
        lemma_updated(rest, i - 1, query, end);
        assert forall|q: Seq<char>| q != query implies #[trigger] last_sent(now, q) == last_sent(
            sent,
            q,
        ) by {
            assert(last_sent(rest.update(i - 1, (query, end)), q) == last_sent(rest, q));
        }
    } else {
        assert(now.drop_first() =~= sent.drop_first());
    }
}

proof fn lemma_pushed(sent: Seq<(Seq<char>, u64)>, query: Seq<char>, end: u64)
    requires
        forall|k: int| 0 <= k < sent.len() ==> (#[trigger] sent[k]).0 != query,
    ensures
        last_sent(sent.push((query, end)), query) == Some(end),
        forall|q: Seq<char>|
            q != query ==> #[trigger] last_sent(sent.push((query, end)), q) == last_sent(sent, q),
    decreases sent.len(),
{
    let now = sent.push((query, end));
    if sent.len() > 0 {
        let rest = sent.drop_first();
        assert(now.drop_first() =~= rest.push((query, end)));
        assert forall|k: int| 0 <= k < rest.len() implies (#[trigger] rest[k]).0 != query by {
            assert(rest[k] == sent[k + 1]);
        }
        lemma_pushed(rest, query, end);
        assert forall|q: Seq<char>| q != query implies #[trigger] last_sent(now, q) == last_sent(
            sent,
            q,
        ) by {
            assert(last_sent(rest.push((query, end)), q) == last_sent(rest, q));
        }
    } else {
        assert forall|q: Seq<char>| q != query implies #[trigger] last_sent(now, q) == last_sent(
            sent,
            q,
        ) by {
            assert(last_sent(now.drop_first(), q) is None);
        }
    }
}

} // verus!
