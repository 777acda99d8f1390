//! Data types of the agent.

pub mod search;
pub mod synthesis;
