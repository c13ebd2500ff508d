//! Persistence for binary decision diagrams.
//!
//! A diagram is an ordered sequence of nodes; each node holds a decision
//! variable and two successor pointers.  This crate provides two codecs for
//! such a sequence: a pipe-delimited, comma-separated text form and a fixed
//! ten-byte-per-node little-endian binary form.  Both are pure
//! transformations between a diagram and its serialized form, and decoding
//! reproduces the encoded node sequence exactly.

pub mod binary;
pub mod diagram;
pub mod text;
