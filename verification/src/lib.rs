//! A verified codec for a length-prefixed, text-framed wire protocol in the
//! RESP (Redis serialization protocol) family.
//!
//! The codec turns a raw byte buffer into a typed value tree and back,
//! byte-exactly: simple strings, explicit-length bulk strings, and nested
//! arrays. Decoding returns the value together with the number of bytes it
//! occupied, so a caller can advance its own receive buffer; encoding
//! produces the exact wire bytes. Transport concerns (sockets, async I/O)
//! live outside this crate: the decision logic that a connection handler
//! needs is exposed here as pure functions over plain byte buffers.

pub mod value;
pub mod parse;
pub mod laws;
pub mod stream;
