//! Compact, append-only sequence containers: a bit-packed vector of booleans
//! and, on top of it, a vector of optional unsigned integers that spends one
//! presence bit and one value slot per element.

pub mod bitvec;
pub mod chunked_vec;
