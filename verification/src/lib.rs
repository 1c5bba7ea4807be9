//! The memory and context engine of a small personal chat assistant:
//! a bounded, priority-aware vector memory store with an embedding cache,
//! a sectioned long-term memory document, per-turn context assembly, and
//! the incremental summarization scheduler's decisions.
//!
//! Channel transports, the LLM client, file and database input and output
//! all stay outside; the library holds the data model, the algorithms and
//! their contracts.

pub mod agent;
pub mod bus;
pub mod clock;
pub mod config;
pub mod context;
pub mod embedding_cache;
pub mod file_store;
pub mod pipeline;
pub mod score;
pub mod service;
pub mod skills;
pub mod text;
pub mod tools;
pub mod uninstall;
pub mod vector_store;
pub mod web;
