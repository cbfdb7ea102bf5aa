//! Applying a format template to the fields of a delimited record.
//!
//! `text` holds character-level helpers (whitespace, trimming, decimal
//! numerals), `format` the template language (its model, parser and
//! renderer), `rows` the per-record decisions of the command-line tool, and
//! `laws` the properties that relate several of these functions.

pub mod text;
pub mod format;
pub mod rows;
pub mod laws;

pub use format::{parse_template, render, resolve_key, FieldKey, Segment};
