//! Fressian: a self-describing binary serialization format.
//!
//! This crate holds the byte-level codec of the format: the byte reader and
//! writer, the encoders for every primitive (integers, booleans, byte arrays,
//! strings in Java's modified UTF-8), the list, map and set framing, the
//! priority cache used for symbols and keywords, and the matching decoders.

pub mod imp;
pub mod error;
pub mod ser;
pub mod de;
pub mod laws;
pub mod types;

pub use crate::types::{inst, uuid, uri, regex, sym, key, typed_arrays};
