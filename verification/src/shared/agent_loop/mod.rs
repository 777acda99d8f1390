//! The multi-turn agent loop: model, tools, evidence, next plan.

pub mod context;
pub mod registry;
pub mod runner;
pub mod synthesis;

pub use registry::ToolRegistry;
pub use runner::{LoopBudget, LoopError, LoopInput, RunReport};
