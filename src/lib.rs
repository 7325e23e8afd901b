//! Core primitives of a colored k-mer pipeline: a canonical Rabin-Karp rolling
//! hash over DNA, a compressed read record codec, the colormap resolution step
//! that turns per-color query counters into range-encoded output records, and a
//! chunked append-only arena.

pub mod hashes;
pub mod varint;
pub mod codec;
pub mod colormap;
pub mod chunked_vector;
pub mod pipeline;
