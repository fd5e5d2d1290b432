//! Delta computation between successive versions of a byte stream.
//!
//! A [`BlockHashes`] digest indexes a stream by fixed-size blocks, each with a
//! rolling weak hash and a strong hash.  Scanning a newer version of the stream
//! against the digest yields a [`Diff`]: byte-range inserts and deletes that
//! turn the older version into the newer one.  The `string_diff` module refines
//! a pair of strings into a character-level script.
//!
//! The executable code lives in `wire`, `diff`, `rolling`, `strong`, `window`,
//! `hashing`, `utf8` and `string_diff`.  The values that its contracts speak of
//! are defined beside it and in `digest` and `scan`.  What holds of the scripts
//! beyond the contracts is proved in `alignment`, `round_trip` and
//! `hirschberg`.
pub mod alignment;
pub mod diff;
pub mod digest;
pub mod hashing;
pub mod hirschberg;
pub mod rolling;
pub mod round_trip;
pub mod scan;
pub mod string_diff;
pub mod strong;
pub mod utf8;
pub mod window;
pub mod wire;

pub use crate::diff::{Delete, Diff, Error, Insert};
pub use crate::hashing::BlockHashes;
pub use crate::wire::ByteReader;
