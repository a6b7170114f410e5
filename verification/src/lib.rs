//! Fixes the line-length issues a Python formatter leaves alone: long string
//! literals, docstrings, comments and embedded SQL/JSON/markdown.
//!
//! One formatting pass parses the source, collects edits (split strings,
//! rewrapped docstrings, reformatted embedded code, moved or rewrapped
//! comments, in that order) and applies them. `format_source` runs passes
//! until one leaves the text unchanged.

pub mod chars;
pub mod cli;
pub mod comments;
pub mod config;
pub mod docstrings;
pub mod edits;
pub mod embedded;
pub mod fill;
pub mod format;
pub mod parse;
pub mod pyutil;
pub mod strings;
pub mod ts;

pub use format::{format_source, format_pass, FormatError, Options, EmbeddedFormatter, NoFormatter};
