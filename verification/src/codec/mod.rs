//! Codecs that turn blocks of bytes into values.

pub mod cbor;
