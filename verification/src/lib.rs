//! Verified core of a command-line chat client for OpenAI-compatible
//! language-model servers.
pub mod config;
pub mod conversation;
pub mod error;
pub mod json;
pub mod llm;
pub mod render;
pub mod repl;
pub mod stream;
pub mod text;
