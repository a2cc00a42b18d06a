//! The little of HTTP that the agent and the gateway speak.

pub mod laws;
pub mod line;
pub mod message;
pub mod reply;
pub mod retry;
pub mod url;
