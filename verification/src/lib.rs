//! Verified core of the editor runtime: scheduling, caching and bookkeeping
//! decisions, kept apart from the windowing, process and file-system edges.

pub mod text;
pub mod log_files;
pub mod completion;
pub mod inline_cache;
pub mod recency;
pub mod auto_save;
pub mod server_keys;
pub mod paths;
pub mod lsp_supervisor;
pub mod document_features;
pub mod event_loop;
pub mod automation;
pub mod rope_text;
pub mod recency_capture;
pub mod recency_ring;
pub mod retrieval;
pub mod formatting;
pub mod watch_roots;
pub mod hover;
pub mod lsp_outcomes;
pub mod debounce;
pub mod editorconfig;
pub mod syntax_queue;
pub mod stale_diagnostics;
pub mod diagnostics_publish;
pub mod previews;
pub mod terminal_spawn;
pub mod latest_worker;
