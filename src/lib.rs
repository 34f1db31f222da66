//! Fixed-size, big-endian binary codecs compiled from a flat record schema.
//!
//! A schema is an ordered list of field declarations. Each declaration is
//! classified as an unsigned integer, a byte array or an enumeration carried
//! as an unsigned integer of a stated width; the classified fields are laid
//! out back to back in declaration order, and the resulting layout encodes a
//! record into exactly `size` bytes and decodes such a buffer back.
use vstd::prelude::*;

pub mod bytes;
pub mod schema;
pub mod codec;
pub mod frame;
