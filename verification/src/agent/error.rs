//! What goes wrong in the agent.

use vstd::prelude::*;
use vstd::string::*;

use crate::error::SketchError;

verus! {

/// Why the agent stops or does not start.
#[derive(Debug)]
pub enum AgentError {
    Config(String),
    Source(String),
    Engine(SketchError),
    Http(String),
    Io(String),
}

impl AgentError {
    /// The message shown to people.
    pub open spec fn text(self) -> Seq<char> {
        match self {
            AgentError::Config(m) => "config error: "@ + m@,
            AgentError::Source(m) => "source error: "@ + m@,
            AgentError::Engine(e) => "engine error: "@ + e@.message(),
            AgentError::Http(m) => "http error: "@ + m@,
            AgentError::Io(m) => "io error: "@ + m@,
        }
    }

    pub fn to_string(&self) -> (r: String)
        ensures
            r@ == self.text(),
    {
        match self {
            AgentError::Config(m) => {
                let mut out = "config error: ".to_owned();
                out.append(m.as_str());
                out
            },
            AgentError::Source(m) => {
                let mut out = "source error: ".to_owned();
                out.append(m.as_str());
                out
            },
            AgentError::Engine(e) => {
                let mut out = "engine error: ".to_owned();
                out.append(e.to_string().as_str());
                out
            },
            AgentError::Http(m) => {
                let mut out = "http error: ".to_owned();
                out.append(m.as_str());
                out
            },
            AgentError::Io(m) => {
                let mut out = "io error: ".to_owned();
                out.append(m.as_str());
                out
            },
        }
    }
}

/// Whether a check ends in the configuration error `fault`, or well if there
/// is none.
pub open spec fn is_verdict(r: Result<(), AgentError>, fault: Option<Seq<char>>) -> bool {
    match fault {
        Some(m) => r matches Err(AgentError::Config(s)) && s@ == m,
        None => r is Ok,
    }
}

} // verus!
