//! A codec for a compact, human-readable superset of JSON: a decoder from
//! text to values, and an encoder from values to text with a table form for
//! arrays of uniform records.
use vstd::prelude::*;

pub mod types;
pub mod utils;
pub mod encoder;
pub mod decoder;
pub mod round_trip;

pub use decoder::decode;
pub use encoder::{encode, encode_with_options};
pub use types::{ToonValue, Number, EncodeOptions};

verus! {

/// What can go wrong when decoding or encoding.
#[derive(Debug, PartialEq, Eq)]
pub enum ToonError {
    /// An underlying input or output failure.
    Io(String),
    /// Writing the output failed.
    Serialization(String),
    /// A well-formed token did not make a value: a bad escape or number.
    Deserialization(String),
    /// The text breaks the grammar.
    InvalidFormat(String),
    /// A value of the host language could not be converted.
    TypeError(String),
}

} // verus!
