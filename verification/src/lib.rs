//! Sentence-aware text chunking for retrieval pipelines.
//!
//! The crate normalizes raw text, splits it into overlapping,
//! sentence-aware chunks bounded by a target character size, and extracts
//! simple financial entities (money, percentages, dates, ticker-like
//! tokens) by pattern matching. All sizes are measured in Unicode code
//! points, never bytes.

pub mod chunk;
pub mod clean;
pub mod extract;
pub mod pipeline;
pub mod segment;
pub mod text;
