//! Export of estimates as OTLP metrics over HTTP and JSON.

use vstd::prelude::*;
use vstd::string::*;

use crate::net::url::{append_path, with_path};

pub mod client;
pub mod encode;
pub mod laws;

pub use client::OtlpClientError;
pub use encode::{encode_estimates, EncodeOptions};

verus! {

/// Where and how often estimates are exported.
#[derive(Debug, Clone)]
pub struct OtlpConfig {
    /// Endpoint of the collector; `/v1/metrics` is added if it is missing.
    pub endpoint: String,
    /// How often the newest windows are exported.
    pub interval_ms: u64,
}

impl OtlpConfig {
    /// The full address of the metrics of this endpoint.
    pub fn metrics_url(&self) -> (r: String)
        ensures
            r@ == with_path(self.endpoint@, "/v1/metrics"@),
    {
        append_path(self.endpoint.as_str(), "/v1/metrics")
    }
}

} // verus!
