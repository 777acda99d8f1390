//! One module for each mode of the agent.

pub mod search;
