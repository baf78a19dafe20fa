//! A local-first semantic-context index: chunkers that cut files into
//! coherent fragments, an in-memory store of files and chunks with a
//! full-text shadow and a bounded query cache, and a hybrid ranker that
//! fuses vector similarity with full-text rank.

pub mod chunk;
pub mod config;
pub mod embed;
pub mod errors;
pub mod ignore_rules;
pub mod lang;
pub mod pdf;
pub mod pipeline;
pub mod protocol;
pub mod search;
pub mod store;
pub mod strutil;
