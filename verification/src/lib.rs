//! A decoder for a compact, self-delimiting serialization format built from
//! four kinds of values: length-prefixed byte strings, signed 64-bit
//! integers, ordered lists, and string-keyed dictionaries. Lists, dicts and
//! integers are closed by the sentinel character `e`.
//!
//! The single entry point is [`BEncoder::decode`], whose result is pinned by
//! a mathematical model of the wire grammar (see the `model` module): the
//! decoded value, or the precise error, is a function of the input characters
//! alone.

pub mod cursor;
pub mod decoder;
pub mod laws;
pub mod model;
pub mod value;

pub use decoder::BEncoder;
pub use value::BType;
pub use value::ErrorKind;
