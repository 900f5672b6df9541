//! Splits a byte sequence into roughly equal parts, each of which can be handed
//! to a worker of its own, and optionally moves every cut forward until it
//! falls just behind a delimiter byte, so that no record is torn in two.
//!
//! [`model`] says what a chunking is, [`laws`] proves what holds of every
//! chunking, [`split`] computes one over a borrowed slice, and [`chunker`]
//! does so over a memory-mapped file.

pub mod chunker;
pub mod laws;
pub mod model;
pub mod split;

pub use chunker::FileChunker;
pub use split::{chunk_size, split_chunks, ChunkError};
