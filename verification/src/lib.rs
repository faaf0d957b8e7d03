//! Chunking plain text into tweet-sized posts.

pub mod chunking;
pub mod composition;
pub mod config;
pub mod content;
pub mod cuts;
pub mod idempotence;
pub mod laws;
pub mod monotone;
pub mod output;
pub mod repl;
pub mod settling;
pub mod text;

pub use chunking::{ChunkError, chunk_text};
pub use config::{AppConfig, ChunkingConfig, LoggingConfig, OutputConfig, ReplConfig};
pub use output::{ChunkedOutput, InputSource, chunk_file, render_chunks};
pub use repl::{ReplCommand, ReplReply, ReplSession, banner, classify_line, help_message};
