//! The prompts of the agent.

pub mod execute;
