//! An ordered, format-preserving model of an INI-like printer-profile
//! configuration file.
//!
//! The library parses raw text into a structural document (an ordered
//! sequence of line entries), projects that document onto a
//! section -> key -> values mapping suitable for programmatic edits,
//! offers an idempotent upsert on that mapping, and serializes either
//! representation back to text. After edits, a document regenerated
//! from the original together with the mutated mapping re-emits every
//! untouched line — comments, blanks, headers and unchanged key/value
//! lines — in its original place, and appends new sections and keys
//! after all pre-existing content.

pub mod entries;
pub mod laws;
pub mod parsing;
pub mod sections;
pub mod text;
pub mod values;
