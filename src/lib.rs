//! A decoder for the Redis serialization protocol: one value at a time,
//! read byte by byte from a source, with its wire grammar stated as spec
//! functions and each routine proved against it.

pub mod grammar;
pub mod source;
pub mod deserializer;
pub mod encoding;
pub mod laws;
