//! The CBOR-based block format.

pub mod decode;
pub mod encode;
pub mod format;
