//! Pushing a batch to the gateway.

use vstd::prelude::*;
use vstd::string::*;

use crate::net::retry::{backoff_ms, show_status, status_text, wait_before, Step, ATTEMPTS};
use crate::net::url::{append_path, with_path};
use crate::text::{debug_text, dec, push_decimal, quoted};

verus! {

/// Where and how often an agent pushes.
#[derive(Debug, Clone)]
pub struct PushConfig {
    /// Endpoint of the gateway; `/v1/snapshots` is added if it is missing.
    pub endpoint: String,
    /// How often the current windows are pushed.
    pub interval_ms: u64,
}

impl PushConfig {
    /// The full address to push to.
    pub fn snapshots_url(&self) -> (r: String)
        ensures
            r@ == with_path(self.endpoint@, "/v1/snapshots"@),
    {
        append_path(self.endpoint.as_str(), "/v1/snapshots")
    }
}

/// Why a push failed.
#[derive(Debug)]
pub enum PushClientError {
    BadEndpoint(String),
    Connect(String, String),
    Io(String, String),
    Status(u16),
    RetriesExhausted { attempts: u32, last: String },
}

impl PushClientError {
    /// The message shown to people.
    pub open spec fn text(self) -> Seq<char> {
        match self {
            PushClientError::BadEndpoint(url) => "invalid endpoint "@ + debug_text(url@)
                + " (expected http://host:port[/v1/snapshots])"@,
            PushClientError::Connect(to, e) => "connect to "@ + to@ + " failed: "@ + e@,
            PushClientError::Io(to, e) => "io error talking to "@ + to@ + ": "@ + e@,
            PushClientError::Status(status) => "gateway returned HTTP "@ + dec(status as nat),
            PushClientError::RetriesExhausted { attempts, last } => "gave up after "@ + dec(
                attempts as nat,
            ) + " attempts; last error: "@ + last@,
        }
    }

    pub fn to_string(&self) -> (r: String)
        ensures
            r@ == self.text(),
    {
        match self {
            PushClientError::BadEndpoint(url) => {
                let mut out = "invalid endpoint ".to_owned();
                out.append(quoted(url.as_str()).as_str());
                out.append(" (expected http://host:port[/v1/snapshots])");
                out
            },
            PushClientError::Connect(to, e) => {
                let mut out = "connect to ".to_owned();
                out.append(to.as_str());
                out.append(" failed: ");
                out.append(e.as_str());
                out
            },
            PushClientError::Io(to, e) => {
                let mut out = "io error talking to ".to_owned();
                out.append(to.as_str());
                out.append(": ");
                out.append(e.as_str());
                out
            },
            PushClientError::Status(status) => {
                let mut out = "gateway returned HTTP ".to_owned();
                push_decimal(&mut out, *status as u64);
                out
            },
            PushClientError::RetriesExhausted { attempts, last } => {
                let mut out = "gave up after ".to_owned();
                push_decimal(&mut out, *attempts as u64);
                out.append(" attempts; last error: ");
                out.append(last.as_str());
                out
            },
        }
    }
}

/// Whether a push is worth repeating after this status. Any other failure
/// means that the batch itself was refused.
pub open spec fn is_transient(status: u16) -> bool {
    status == 429 || status == 502 || status == 503 || status == 504
}

/// What is done after attempt `attempt` (from zero) that came to `outcome`.
pub open spec fn is_next(
    attempt: u32,
    outcome: Result<u16, PushClientError>,
    step: Step<PushClientError>,
) -> bool {
    match outcome {
        Ok(status) => if 200 <= status < 300 {
            step matches Step::Finished(Ok(_))
        } else if is_transient(status) {
            is_repeat(attempt, status_text(status), step)
        } else {
            step == Step::<PushClientError>::Finished(Err(PushClientError::Status(status)))
        },
        Err(e) => if e is BadEndpoint {
            step == Step::<PushClientError>::Finished(Err(e))
        } else {
            is_repeat(attempt, e.text(), step)
        },
    }
}

/// Another attempt, if one is left, else the last failure.
pub open spec fn is_repeat(attempt: u32, failure: Seq<char>, step: Step<PushClientError>) -> bool {
    if attempt + 1 < ATTEMPTS {
        step == Step::<PushClientError>::Again(wait_before((attempt + 1) as nat) as u64)
    } else {
        &&& step matches Step::Finished(Err(PushClientError::RetriesExhausted { attempts, last }))
        &&& attempts == ATTEMPTS
        &&& last@ == failure
    }
}

fn repeat(attempt: u32, failure: String) -> (r: Step<PushClientError>)
    requires
        attempt < ATTEMPTS,
    ensures
        is_repeat(attempt, failure@, r),
{
    if attempt + 1 < ATTEMPTS {
        Step::Again(backoff_ms(attempt + 1))
    } else {
        Step::Finished(
            Err(PushClientError::RetriesExhausted { attempts: ATTEMPTS, last: failure }),
        )
    }
}

/// What to do after an attempt: be done, give up, or wait and try again.
pub fn after_push(attempt: u32, outcome: Result<u16, PushClientError>) -> (r: Step<PushClientError>)
    requires
        attempt < ATTEMPTS,
    ensures
        is_next(attempt, outcome, r),
{
    match outcome {
        Ok(status) => {
            if status >= 200 && status < 300 {
                Step::Finished(Ok(()))
            } else if status == 429 || status == 502 || status == 503 || status == 504 {
                repeat(attempt, show_status(status))
            } else {
                Step::Finished(Err(PushClientError::Status(status)))
            }
        },
        Err(PushClientError::BadEndpoint(url)) => Step::Finished(
            Err(PushClientError::BadEndpoint(url)),
        ),
        Err(e) => repeat(attempt, e.to_string()),
    }
}

} // verus!
