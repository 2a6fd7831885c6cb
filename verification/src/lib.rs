//! Decoder for the Bencode serialization format.
//!
//! [`BValue::from_bytes`] decodes the value at the start of a byte buffer
//! into a [`BValue`] tree and gives it with the bytes behind it. What the
//! decoder accepts, and what each input denotes, is defined by the grammar in
//! [`grammar`].

pub mod bencode;
pub mod dict;
pub mod encoding;
pub mod error;
pub mod grammar;
pub mod order;
pub mod remainder;

pub use bencode::BValue;
pub use dict::Dict;
pub use error::ParseError;
