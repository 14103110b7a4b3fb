//! Verified core of a file search tool: size and date filters, name
//! matching, content scanning, result ordering, duplicate grouping and
//! directory tree layout.

pub mod cli;
pub mod filters;
pub mod outside;
pub mod text;
pub mod glob;
pub mod order;
pub mod search;
pub mod content;
pub mod duplicate;
pub mod display;
pub mod tree;
pub mod preview;
