//! A linter for Cypher sources and for the Cypher blocks of Markdown documents.
//!
//! The library finds the blocks of a Markdown document, reads rule files, turns tree-sitter
//! syntax trees and query matches into diagnostics, converts between byte offsets and
//! LSP line/column positions, and decides what a lint run reports; `app/` reads the files
//! and prints.

pub mod text;
pub mod markdown;
pub mod position;
pub mod syntax;
pub mod diagnostics;
pub mod rules;
pub mod tree;
pub mod analysis;
pub mod lint;
pub mod report;
pub mod session;
