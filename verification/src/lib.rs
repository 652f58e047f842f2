//! Codec for a byte-oriented LZ-family compression scheme: a greedy
//! longest-match compressor over a bounded sliding window, and the matching
//! bitstream encoder and decoder for the two on-disk formats that share a
//! one-byte header tag.

pub mod token;
pub mod lzss;
pub mod nlz;
pub mod roundtrip;
