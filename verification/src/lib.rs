//! Structural search and replace for source code: snippets and tree-sitter
//! queries are matched against syntax trees, and the matches are turned
//! into edits of the source text.

pub mod cli;
pub mod context;
pub mod edit;
pub mod language;
pub mod matcher;
pub mod syntax;
pub mod text;
pub mod ts;
