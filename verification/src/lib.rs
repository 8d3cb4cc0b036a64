//! Jsonnet dependency graph: a cache of per-file static imports, forward and
//! reverse dependency traversal, and the text rendering of the results.

pub mod text;
pub mod paths;
pub mod pathmap;
pub mod cache;
pub mod extract;
pub mod graph;
pub mod output;
pub mod cmd;
