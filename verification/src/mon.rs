//! Reading primitives from the front of a buffer.

pub mod error;
pub mod primitives;
