//! Canonical prefix codes for DEFLATE decoding: bit-string values, the
//! canonical assignment of codes to symbols from their code lengths, the
//! decode tree built from that assignment, and its bit-at-a-time traversal.

pub mod code;
pub mod canonical;
pub mod tree;
pub mod laws;
pub mod order;
pub mod ownership;
pub mod round_trip;
pub mod fixed;
