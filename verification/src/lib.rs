//! Bit-level streams and LZW compression, with machine-checked contracts.

pub mod bits;
pub mod bitstream;
pub mod lzw;
pub mod roundtrip;
pub mod greedy;
