//! A verified in-memory song catalog with a flat-file codec.
//!
//! The catalog keeps an ordered collection of song records, supports
//! appending new songs, case-insensitive substring search, and a play
//! counter per song. A companion codec renders the catalog as tabular
//! text (one header row, then one comma-separated record per line) and
//! parses that text back; a proof shows the round trip is the identity.

pub mod catalog;
pub mod codec;
pub mod numeric;
pub mod search;
pub mod song;
pub mod text;
