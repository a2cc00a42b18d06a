//! The agent on a host: it captures packets, runs the queries and publishes
//! what they come to.

pub mod barrier;
pub mod batching;
pub mod capture;
pub mod config;
pub mod config_laws;
pub mod error;
pub mod fanout;
pub mod health_laws;
pub mod http;
pub mod lanes;
pub mod latest;
pub mod laws;
pub mod lifecycle;
pub mod ring;
pub mod session;
pub mod state;
pub mod worker;

pub use config::AgentConfig;
pub use error::AgentError;
pub use state::PublishedState;
