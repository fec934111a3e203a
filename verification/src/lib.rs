//! Extraction pipeline for book mentions in long transcripts: a whitespace
//! respecting chunker, a sliding-window admission limiter, the per-task
//! dispatch decisions, and a deterministic result aggregator.

pub mod aggregate;
pub mod chunk;
pub mod clean;
pub mod dispatch;
pub mod limiter;
pub mod text;
