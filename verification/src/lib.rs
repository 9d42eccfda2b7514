//! A codec for bencode: integers, byte strings, lists and key/value maps in a
//! length-prefixed, self-delimiting byte encoding.
//!
//! [`parse_bencode`] reads one value from a [`ByteReader`];
//! [`Value::to_bencode`] gives the canonical bytes of a value. What both do
//! is stated over [`model::Bencode`], the mathematical tree that a [`Value`]
//! stands for.

pub mod convert;
pub mod decimal;
pub mod decode;
pub mod dict;
pub mod digest;
pub mod digest_order;
pub mod encode;
pub mod equal;
pub mod equivalence;
pub mod error;
pub mod model;
pub mod reader;
pub mod render;
pub mod roundtrip;
pub mod streaming;
pub mod text;
pub mod value;
pub mod wire;

pub use crate::decimal::IntErrorKind;
pub use crate::decode::parse_bencode;
pub use crate::error::BencodeError;
pub use crate::reader::ByteReader;
pub use crate::value::Value;
