//! Splits Rust source files into semantic chunks, drives a local language model over
//! them, and assembles reports or a commented copy of the source from its answers.

pub mod text;
pub mod text_laws;
pub mod order;
pub mod chunk_kind;
pub mod syntax;
pub mod chunker;
pub mod chunk_laws;
pub mod split_laws;
pub mod rewrite;
pub mod rewrite_laws;
pub mod prompt;
pub mod prompt_laws;
pub mod report;
pub mod report_laws;
pub mod runlog;
pub mod cache;
pub mod cache_laws;
pub mod ollama;
pub mod cli;
pub mod generation;
pub mod session;
pub mod session_laws;
