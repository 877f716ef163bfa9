//! Word-frequency statistics over text samples.
//!
//! The library normalizes raw text (strips a fixed punctuation/digit class,
//! splits on whitespace, lowercases), accumulates per-word counts across
//! successive text chunks, and projects an aggregate summary.

pub mod analysis;
pub mod laws;
pub mod normalize;
