//! A small line-oriented text search library.
//!
//! Given a query string and a body of text, the library reports the lines
//! that contain the query as a contiguous substring, either case-sensitively
//! or case-insensitively, and can render matched lines with every literal
//! occurrence of the query wrapped in highlight markers.  Reading files and
//! printing belong to the surrounding program; everything here is pure
//! computation with a verified contract.

pub mod config;
pub mod highlight;
pub mod matcher;
pub mod scanner;
