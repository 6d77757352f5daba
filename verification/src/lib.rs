//! The verified core of a slab store: a gap-tracked heap of byte records
//! over a growable byte region, with its record-tag codec, variable-length
//! integer codec, and opaque record identifiers.

pub mod varint;
pub mod tag;
pub mod error;
pub mod id;
pub mod backing;
pub mod store;
pub mod options;
