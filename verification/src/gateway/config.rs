//! The gateway's configuration.
//!
//! ```yaml
//! gateway:
//!   listen: 0.0.0.0:9465
//!   seed: 0
//!   staleAfterMs: 300000
//!   maxNodes: 128
//! queries:
//!   - file: examples/queries/top-talkers.yaml
//! ```

use vstd::prelude::*;
use vstd::string::*;

use crate::text::{dec, push_decimal};

verus! {

pub const DEFAULT_MAX_NODES: usize = 128;

pub const MAX_CONFIGURED_NODES: usize = 65_536;

/// Why the gateway does not start or run.
#[derive(Debug)]
pub enum GatewayError {
    Config(String),
    Http(String),
    Io(String),
}

impl GatewayError {
    /// The message shown to people.
    pub open spec fn text(self) -> Seq<char> {
        match self {
            GatewayError::Config(m) => "config error: "@ + m@,
            GatewayError::Http(m) => "http error: "@ + m@,
            GatewayError::Io(m) => "io error: "@ + m@,
        }
    }

    pub fn to_string(&self) -> (r: String)
        ensures
            r@ == self.text(),
    {
        let (prefix, m): (&str, &String) = match self {
            GatewayError::Config(m) => ("config error: ", m),
            GatewayError::Http(m) => ("http error: ", m),
            GatewayError::Io(m) => ("io error: ", m),
        };
        let mut out = prefix.to_owned();
        out.append(m.as_str());
        out
    }
}

/// A configuration document, before validation.
#[derive(Debug)]
pub struct RawGatewayConfig {
    pub listen: Option<String>,
    pub seed: Option<u64>,
    pub stale_after_ms: Option<u64>,
    pub max_nodes: Option<usize>,
    pub query_files: Vec<String>,
}

/// A valid configuration.
#[derive(Debug)]
pub struct GatewayConfig {
    pub listen: String,
    pub seed: u64,
    pub stale_after_ms: u64,
    pub max_nodes: usize,
    pub query_files: Vec<String>,
}

pub open spec fn nodes_meant(max_nodes: Option<usize>) -> usize {
    match max_nodes {
        Some(n) => n,
        None => DEFAULT_MAX_NODES,
    }
}

/// Nodes are not forgotten faster than after a second.
pub open spec fn staleness_meant(ms: Option<u64>) -> u64 {
    let n = match ms {
        Some(n) => n,
        None => 300_000,
    };
    if n < 1_000 {
        1_000
    } else {
        n
    }
}

impl GatewayConfig {
    /// Validate a document.
    pub fn from_raw(raw: RawGatewayConfig) -> (r: Result<Self, GatewayError>)
        ensures
            if raw.query_files@.len() == 0 {
                r matches Err(GatewayError::Config(m)) && m@
                    == "gateway config must list at least one query file"@
            } else if nodes_meant(raw.max_nodes) < 1 || nodes_meant(raw.max_nodes)
                > MAX_CONFIGURED_NODES {
                r matches Err(GatewayError::Config(m)) && m@
                    == "gateway.maxNodes must be between 1 and "@ + dec(
                    MAX_CONFIGURED_NODES as nat,
                )
            } else {
                &&& r is Ok
                &&& r->Ok_0.listen@ == match raw.listen {
                    Some(s) => s@,
                    None => "127.0.0.1:9465"@,
                }
                &&& r->Ok_0.seed == match raw.seed {
                    Some(n) => n,
                    None => 0u64,
                }
                &&& r->Ok_0.stale_after_ms == staleness_meant(raw.stale_after_ms)
                &&& r->Ok_0.max_nodes == nodes_meant(raw.max_nodes)
                &&& r->Ok_0.query_files == raw.query_files
            },
    {
        let RawGatewayConfig { listen, seed, stale_after_ms, max_nodes, query_files } = raw;
        if query_files.len() == 0 {
            return Err(
                GatewayError::Config("gateway config must list at least one query file".to_owned()),
            );
        }
        let max_nodes: usize = match max_nodes {
            Some(n) => n,
            None => DEFAULT_MAX_NODES,
        };
        if max_nodes < 1 || max_nodes > MAX_CONFIGURED_NODES {
            let mut m = "gateway.maxNodes must be between 1 and ".to_owned();
            push_decimal(&mut m, MAX_CONFIGURED_NODES as u64);
            return Err(GatewayError::Config(m));
        }
        let listen = match listen {
            Some(s) => s,
            None => "127.0.0.1:9465".to_owned(),
        };
        let seed: u64 = match seed {
            Some(n) => n,
            None => 0,
        };
        let asked: u64 = match stale_after_ms {
            Some(n) => n,
            None => 300_000,
        };
        let stale_after_ms: u64 = if asked < 1_000 {
            1_000
        } else {
            asked
        };
        Ok(GatewayConfig { listen, seed, stale_after_ms, max_nodes, query_files })
    }
}

impl GatewayConfig {
    /// How long a node is known that does not push, in nanoseconds.
    pub fn stale_after(&self) -> (r: u64)
        ensures
            r == (if self.stale_after_ms * 1_000_000 > u64::MAX {
                u64::MAX as int
            } else {
                self.stale_after_ms * 1_000_000
            }),
    {
        if self.stale_after_ms > u64::MAX / 1_000_000 {
            u64::MAX
        } else {
            self.stale_after_ms * 1_000_000
        }
    }
}

} // verus!
