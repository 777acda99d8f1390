//! Infrastructure that every mode of the agent shares.

pub mod agent_loop;
pub mod gateway;
pub mod obscura;
pub mod prompts;
pub mod session;
pub mod tools;
pub mod types;
pub mod web_engine_search;
