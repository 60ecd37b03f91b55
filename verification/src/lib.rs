//! Detects unlinked mentions across a corpus of Markdown notes.
//!
//! A note is parsed into a byte-position-addressable document tree
//! (front matter, blocks, inline nodes), and the plain-text leaves of
//! each document are scanned for occurrences of the titles and aliases
//! of the other documents in the corpus.

pub mod error;
pub mod frontmatter;
pub mod grammar;
pub mod link_finder;
pub mod parser;
pub mod props;
pub mod scan;
pub mod settings;
pub mod title;
pub mod vault;
