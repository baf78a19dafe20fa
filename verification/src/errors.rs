//! Error kinds surfaced by the core.

use vstd::prelude::*;

verus! {

/// Everything the indexing and retrieval engine can report.
#[derive(Debug)]
pub enum CoreError {
    /// The backing store cannot be opened or written.
    StorageUnavailable,
    /// The backing store exists but its schema is not the expected one.
    SchemaMismatch,
    /// Tokenizer or inference error while embedding.
    EmbeddingFailed,
    /// Parser construction or parse error while chunking.
    ChunkingFailed,
    /// A plugin was configured with an empty argument vector.
    PluginEmpty,
    /// A plugin ran past its wall-clock budget.
    PluginTimeout,
    /// A plugin exited with a non-zero status; carries status and stderr.
    PluginExit(i64, String),
    /// A plugin wrote stdout that is not valid UTF-8.
    PluginBinary,
    /// An ignore-rule file could not be parsed.
    IgnoreLoad,
    /// The filesystem watcher failed.
    WatcherFailed,
}

impl CoreError {
    /// A short stable name for the error kind.
    pub fn kind_name(&self) -> (r: &'static str)
        ensures
            r@ == self.spec_kind_name(),
    {
        match self {
            CoreError::StorageUnavailable => "storage_unavailable",
            CoreError::SchemaMismatch => "schema_mismatch",
            CoreError::EmbeddingFailed => "embedding_failed",
            CoreError::ChunkingFailed => "chunking_failed",
            CoreError::PluginEmpty => "plugin_empty",
            CoreError::PluginTimeout => "plugin_timeout",
            CoreError::PluginExit(_, _) => "plugin_exit",
            CoreError::PluginBinary => "plugin_binary",
            CoreError::IgnoreLoad => "ignore_load",
            CoreError::WatcherFailed => "watcher_failed",
        }
    }

    /// Spec-level name of the error kind.
    pub open spec fn spec_kind_name(&self) -> Seq<char> {
        match self {
            CoreError::StorageUnavailable => "storage_unavailable"@,
            CoreError::SchemaMismatch => "schema_mismatch"@,
            CoreError::EmbeddingFailed => "embedding_failed"@,
            CoreError::ChunkingFailed => "chunking_failed"@,
            CoreError::PluginEmpty => "plugin_empty"@,
            CoreError::PluginTimeout => "plugin_timeout"@,
            CoreError::PluginExit(_, _) => "plugin_exit"@,
            CoreError::PluginBinary => "plugin_binary"@,
            CoreError::IgnoreLoad => "ignore_load"@,
            CoreError::WatcherFailed => "watcher_failed"@,
        }
    }
}

} // verus!
