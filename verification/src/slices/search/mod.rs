//! The `search` mode: the agent loop over search, fetch and synthesis.

pub mod handler;
pub mod response;

pub use handler::{ResearchError, ResearchRequest};
pub use response::{render, CitationDTO, ResearchResponse, SynthesisDTO, ThemeDTO, UsageDTO};
