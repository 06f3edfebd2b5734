//! The wtar archive container: a tree of entries serialized as a pre-order
//! metadata block behind a little-endian length prefix, followed by the
//! concatenated contents of every file in the same order.
pub mod codec;
pub mod entry;
pub mod extract;
pub mod reader;
pub mod roundtrip;
