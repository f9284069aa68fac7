//! The three checks: every file in style, every folder with the same
//! files, every peer file with the same keys and value shapes.

pub mod entry_parity;
pub mod file_parity;
pub mod file_style;
