//! Compact, self-describing binary storage primitives: bit-level packed
//! integer arrays, a minimal self-describing struct format with runtime
//! field reflection, and fixed-point arithmetic.

pub mod bit_ops;
pub mod blob;
pub mod builder;
pub mod convert;
pub mod dynamic;
pub mod error;
pub mod fixed;
pub mod flags;
pub mod merkle;
pub mod mtf;
pub mod packed;
pub mod parse;
pub mod save;
