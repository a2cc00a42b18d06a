//! Sending metrics to a collector.

use vstd::prelude::*;
use vstd::string::*;

use crate::net::retry::{backoff_ms, show_status, status_text, wait_before, Step, ATTEMPTS};
use crate::text::{debug_text, dec, push_decimal, quoted};

verus! {

/// Why an export failed.
#[derive(Debug)]
pub enum OtlpClientError {
    BadEndpoint(String),
    Connect(String, String),
    Io(String, String),
    Status(u16),
    RetriesExhausted { attempts: u32, last: String },
}

impl OtlpClientError {
    /// The message shown to people.
    pub open spec fn text(self) -> Seq<char> {
        match self {
            OtlpClientError::BadEndpoint(url) => "invalid endpoint "@ + debug_text(url@)
                + " (expected http://host:port[/v1/metrics])"@,
            OtlpClientError::Connect(to, e) => "connect to "@ + to@ + " failed: "@ + e@,
            OtlpClientError::Io(to, e) => "io error talking to "@ + to@ + ": "@ + e@,
            OtlpClientError::Status(status) => "collector returned HTTP "@ + dec(status as nat),
            OtlpClientError::RetriesExhausted { attempts, last } => "gave up after "@ + dec(
                attempts as nat,
            ) + " attempts; last error: "@ + last@,
        }
    }

    pub fn to_string(&self) -> (r: String)
        ensures
            r@ == self.text(),
    {
        match self {
            OtlpClientError::BadEndpoint(url) => {
                let mut out = "invalid endpoint ".to_owned();
                out.append(quoted(url.as_str()).as_str());
                out.append(" (expected http://host:port[/v1/metrics])");
                out
            },
            OtlpClientError::Connect(to, e) => {
                let mut out = "connect to ".to_owned();
                out.append(to.as_str());
                out.append(" failed: ");
                out.append(e.as_str());
                out
            },
            OtlpClientError::Io(to, e) => {
                let mut out = "io error talking to ".to_owned();
                out.append(to.as_str());
                out.append(": ");
                out.append(e.as_str());
                out
            },
            OtlpClientError::Status(status) => {
                let mut out = "collector returned HTTP ".to_owned();
                push_decimal(&mut out, *status as u64);
                out
            },
            OtlpClientError::RetriesExhausted { attempts, last } => {
                let mut out = "gave up after ".to_owned();
                push_decimal(&mut out, *attempts as u64);
                out.append(" attempts; last error: ");
                out.append(last.as_str());
                out
            },
        }
    }
}

/// What is done after attempt `attempt` (from zero) that came to `outcome`.
/// A document that was refused is not sent again: it would not get more
/// acceptable.
pub open spec fn is_next(
    attempt: u32,
    outcome: Result<u16, OtlpClientError>,
    step: Step<OtlpClientError>,
) -> bool {
    match outcome {
        Ok(status) => if 200 <= status < 300 {
            step matches Step::Finished(Ok(_))
        } else if 400 <= status < 500 {
            step == Step::<OtlpClientError>::Finished(Err(OtlpClientError::Status(status)))
        } else {
            is_repeat(attempt, status_text(status), step)
        },
        Err(e) => if e is BadEndpoint {
            step == Step::<OtlpClientError>::Finished(Err(e))
        } else {
            is_repeat(attempt, e.text(), step)
        },
    }
}

/// Another attempt, if one is left, else the last failure.
pub open spec fn is_repeat(attempt: u32, failure: Seq<char>, step: Step<OtlpClientError>) -> bool {
    if attempt + 1 < ATTEMPTS {
        step == Step::<OtlpClientError>::Again(wait_before((attempt + 1) as nat) as u64)
    } else {
        &&& step matches Step::Finished(Err(OtlpClientError::RetriesExhausted { attempts, last }))
        &&& attempts == ATTEMPTS
        &&& last@ == failure
    }
}

fn repeat(attempt: u32, failure: String) -> (r: Step<OtlpClientError>)
    requires
        attempt < ATTEMPTS,
    ensures
        is_repeat(attempt, failure@, r),
{
    if attempt + 1 < ATTEMPTS {
        Step::Again(backoff_ms(attempt + 1))
    } else {
        Step::Finished(
            Err(OtlpClientError::RetriesExhausted { attempts: ATTEMPTS, last: failure }),
        )
    }
}

/// What to do after an attempt: be done, give up, or wait and try again.
pub fn after_post(attempt: u32, outcome: Result<u16, OtlpClientError>) -> (r: Step<OtlpClientError>)
    requires
        attempt < ATTEMPTS,
    ensures
        is_next(attempt, outcome, r),
{
    match outcome {
        Ok(status) => {
            if status >= 200 && status < 300 {
                Step::Finished(Ok(()))
            } else if status >= 400 && status < 500 {
                Step::Finished(Err(OtlpClientError::Status(status)))
            } else {
                repeat(attempt, show_status(status))
            }
        },
        Err(OtlpClientError::BadEndpoint(url)) => Step::Finished(
            Err(OtlpClientError::BadEndpoint(url)),
        ),
        Err(e) => repeat(attempt, e.to_string()),
    }
}

} // verus!
