//! A git staging tool's core: the file tree, its flattening for display,
//! navigation and fuzzy search, and the decisions taken on each key.
pub mod text;
pub mod types;
pub mod path;
pub mod tree;
pub mod fuzzy;
pub mod app;
pub mod keys;
pub mod git;
pub mod cli;
pub mod render;
pub mod command;
