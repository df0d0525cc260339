//! Detection of overlapping partial bit-pattern encodings over 32-bit words.
//!
//! An [`Encoding`] fixes some positions of a word and leaves the others free.
//! [`find_overlapping_encoding`] tells whether two encodings of a list can
//! match the same word, and if so hands back such a word. The search runs on
//! binary decision diagrams of the `boolean_expression` crate.

pub mod encoding;
pub mod engine;
pub mod overlap;

pub use encoding::Encoding;
pub use overlap::find_overlapping_encoding;
