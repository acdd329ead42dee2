//! Detection and removal of comments that contain Chinese characters in source code.
//!
//! The scanner in `lexer` walks a file's bytes as a small state machine that knows about
//! strings, regular-expression literals, raw strings and (nested) block comments; the
//! modules above it select comments, remove them and format reports.

pub mod cleaner;
pub mod cli;
pub mod comment;
pub mod lexer;
pub mod line_facts;
pub mod scan_facts;
pub mod scan_laws;
pub mod scanner;
pub mod syntax;
pub mod text;
pub mod utf8_facts;
pub mod utils;
