//! Skill files in Markdown with YAML frontmatter, their dependency graph, and
//! the diagnostics, queries and renderings over it.
pub mod analysis;
pub mod config;
pub mod error;
pub mod export;
pub mod graph;
pub mod model;
pub mod parser;
pub mod query;
pub mod text;
