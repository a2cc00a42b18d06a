//! The cluster gateway: agents push snapshots of their windows, the gateway
//! keeps the newest window of each node and query and merges them.

pub mod batch;
pub mod client;
pub mod config;
pub mod edge_laws;
pub mod http;
pub mod laws;
pub mod metrics;
pub mod nodes;
pub mod page_laws;
pub mod queries;
pub mod state;
pub mod windows;

pub use batch::{PushBatch, PushEntry};
pub use client::{PushClientError, PushConfig};
pub use config::{GatewayConfig, GatewayError};
