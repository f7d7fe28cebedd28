//! The Fressian types that have no counterpart in Rust's standard library: instants,
//! UUIDs, URIs, regular expressions, symbols, keywords, typed arrays and sets.

pub mod inst;
pub mod uuid;
pub mod uri;
pub mod regex;
pub mod sym;
pub mod key;
pub mod typed_arrays;
pub mod set;
