//! IPLD values in their CBOR-based block format, and lookups along paths
//! through graphs of linked blocks.
//!
//! [`codec::cbor::decode`] reads values off bytes and
//! [`codec::cbor::encode`] writes them; [`codec::cbor::format`] states the
//! format that both keep to. [`dag`] follows a path from a root block through
//! the blocks of a [`store`], across the links that it meets.

pub mod codec;
pub mod dag;
pub mod error;
pub mod float;
pub mod ipld;
pub mod link;
pub mod map;
pub mod path;
pub mod reader;
pub mod store;
