//! A Bencode codec: a recursive-descent decoder from bytes to a value tree
//! and a canonical encoder back to bytes, both proved against a model of
//! the format.

pub mod convert;
pub mod decode;
pub mod encode;
pub mod error;
pub mod laws;
pub mod order;
pub mod render;
pub mod value;

pub use decode::{decode_bencode_element, decode_with_limit, MAX_DEPTH};
pub use encode::encode_bencode_value;
pub use error::{BencodeError, BencodeKind};
pub use value::{BencodeDict, BencodeElement, BencodeEncodeble, StringorByteArray};
