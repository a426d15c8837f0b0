//! Strata: a small typed value model with a canonical binary encoding.
//!
//! - `value`: the seven-variant value type, and maps kept in key order.
//! - `varint`: unsigned and signed LEB128.
//! - `encode` / `decode`: the canonical encoder and the strict decoder,
//!   each stated against byte-level rules over the value model.
//! - `canonical`: what the two guarantee together (round trip,
//!   canonicality, offsets of errors, insertion-order independence).
//! - `lexer` / `parser`: textual source to values, with source spans.
//! - `hash`: BLAKE3 of the canonical encoding.
//! - `framing`: the magic-and-version frame and length-prefixed frames.
//! - `error`: the error kinds.
pub mod canonical;
pub mod decode;
pub mod encode;
pub mod error;
pub mod framing;
pub mod hash;
pub mod lexer;
pub mod order;
pub mod parser;
pub mod value;
pub mod varint;
