//! The core of a web research agent: a research goal becomes a session of
//! turns, whose evidence ends in a synthesis with citations.
//!
//! The logic is verified and does no I/O. Whatever alternates with the outside
//! world, such as a turn of the model or a search over several providers, is
//! a state machine: the caller performs the step that it asks for and hands
//! the outcome back.

use vstd::prelude::*;

pub mod foreign;
pub mod json;
pub mod shared;
pub mod slices;
pub mod text;
pub mod time;

pub use slices::search::{
    render, CitationDTO, ResearchError, ResearchRequest, ResearchResponse, SynthesisDTO, ThemeDTO,
    UsageDTO,
};

verus! {

/// Version of the session format. A change that older readers cannot take
/// raises it.
pub const SESSION_FORMAT_VERSION: u32 = 1;

} // verus!
