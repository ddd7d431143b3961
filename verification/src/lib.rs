//! Storage core of a multi-camera network video recorder.
//!
//! All cameras share one ring of pre-allocated, fixed-size pool files. A
//! single writer appends length-prefixed records to the active slot and
//! rotates to the next slot when it is full; an in-memory index maps
//! `(camera, time range)` to record locations and is rebuilt on startup by
//! scanning the records already on disk. The modules here hold the binary
//! record format, the in-memory model of the pool ring, the segment index,
//! the single-writer step, and the per-camera segment accumulator; reading
//! and writing the actual files is left to the embedding program.

pub mod chunk_pool;
pub mod codec;
pub mod config;
pub mod error;
pub mod index;
pub mod ingestion;
pub mod playback;
pub mod writer;
