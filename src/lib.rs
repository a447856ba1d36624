//! Conversion of non-negative integers between positional bases that are
//! powers of two, by way of a binary expansion regrouped into fixed-width
//! fields.
pub mod binary;
pub mod convert;
pub mod laws;
pub mod symbols;
