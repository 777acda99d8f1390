//! The gateway to an OpenAI-compatible model, which drives the agent loop.
//!
//! Configuration, request bodies, replies, failures and retries. The caller
//! sends the requests; tools are run by the agent loop.

pub mod client;
pub mod config;
pub mod reply;

pub use client::GatewayError;
pub use config::{GatewayConfig, ModelParams, ResolvedParams};
pub use reply::{ChatMessage, LlmReply, RequestedToolCall, TokenUsage, ToolChoice, ToolDef};
