//! A linter and formatter for a restricted JSON dialect used for
//! translation files: objects whose values are strings or further objects.
//!
//! The crate parses such a file under a configurable style, reporting style
//! violations as diagnostics instead of aborting, serializes an abstract
//! syntax tree back to text under a style, and reconciles several parallel
//! files (one per language) against each other: same file inventory, same
//! keys, same value shapes.

pub mod checks;
pub mod cli;
pub mod io;
pub mod natural_sort;
pub mod parser;
pub mod util;
