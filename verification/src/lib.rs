//! Semantic differences between YAML documents, and their side-by-side
//! rendering, with the core logic verified.

pub mod line;
pub mod text;
pub mod layout;
pub mod snippet;
pub mod wrapping;
pub mod yaml;
pub mod path;
pub mod diff;
pub mod source;
pub mod node;
pub mod multidoc;
pub mod inline_diff;
pub mod report;
pub mod prepatch;
pub mod config;
