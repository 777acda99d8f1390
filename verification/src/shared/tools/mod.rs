//! The tools of the agent.
//!
//! The model is no tool: it drives the agent loop through the gateway.

pub mod fetch;
pub mod search;
