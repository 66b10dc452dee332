//! Salted base-32 encoding of 64-bit identifiers.
//!
//! A [`Weird`] codec turns a `u64` into a short, case-insensitive string of
//! base-32 symbols and back. Each codec permutes the symbol alphabet and
//! XORs a cyclic keystream, drawn from its salt, into every digit, so that
//! sequential identifiers do not look sequential.

pub mod alphabet;
pub mod codec;
pub mod digits;
pub mod error;
pub mod packing;
pub mod salt;
pub mod table;

pub use alphabet::{fnv_hash, Alphabet};
pub use codec::Weird;
pub use error::{Error, Kind};
pub use salt::{ByteSource, Salt};
pub use table::{canonical_digit, canonical_symbol};
