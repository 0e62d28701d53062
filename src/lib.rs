//! Byte-level machinery for HTTP message bodies: flow-controlled chunked
//! writing, incoming body reading, and `multipart/form-data` encoding, both
//! eager and pull-based.
pub mod body;
pub mod multipart;
mod outside;
pub mod wire;
