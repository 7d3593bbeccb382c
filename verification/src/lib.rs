//! A bounded-dictionary, LZW-style compressor for streams of language-model
//! token IDs. A greedy single pass learns short phrases (bounded length,
//! bounded dictionary capacity, no eviction) and replaces repeated phrases
//! with window-local substitute IDs, producing fixed-size output windows
//! paired with padded codebook tables for fixed-shape downstream training.

pub mod codebook;
pub mod container;
pub mod disabled;
pub mod merge;
pub mod model;
pub mod windows;
