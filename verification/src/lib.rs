//! A decoder for the REdis Serialization Protocol (RESP): it turns a stream
//! of bytes into a well-typed message tree, one message per call, with
//! structured errors on malformed or truncated input.
//!
//! The decoder's contracts are stated against the canonical wire encoding in
//! `wire`: wherever the remaining input opens with the encoding of a
//! well-formed message, decoding returns exactly that message and consumes
//! exactly its encoding; wherever the input ends inside an encoding,
//! decoding fails with an end-of-stream error.
pub mod parser;
pub mod server;
pub mod wire;
