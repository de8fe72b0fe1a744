//! A verified core for phrase search over C-like source text.
//!
//! The library has three layers, leaves first:
//! - [`lexer`]: splits raw bytes into an ordered, non-overlapping sequence of
//!   token spans, longest match wins, with bounded error recovery;
//! - [`highlight`]: compiles a query's token sequence into a partial-match
//!   (failure) table and scans a document's token stream for every occurrence
//!   in linear time;
//! - [`render`]: turns matched character ranges plus the original multi-line
//!   text into per-line plain/highlighted fragments, carrying matches that
//!   straddle line boundaries.
//!
//! Index storage, posting lists, scoring and command-line handling are
//! outside collaborators and are out of scope here.

pub mod highlight;
pub mod lexer;
pub mod render;
pub mod search;
