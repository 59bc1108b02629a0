//! A verified codec for a minimal DNS-style name-resolution wire format.
//!
//! The crate decodes and builds binary protocol messages: the fixed 12-byte
//! header with its bit-packed fields, length-prefixed domain-name labels, and
//! the label-compression pointers that let a name reuse bytes found earlier in
//! the same packet.  `parser` holds the byte-level grammar, `message` the
//! packet assembler, `buffer` the thin trusted surface over the byte buffer,
//! and `laws` the proved properties that relate the pieces.

pub mod buffer;
pub mod laws;
pub mod message;
pub mod parser;
