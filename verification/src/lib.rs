//! File search and code navigation: the decisions behind `grep`, `glob` and
//! the tool server, the bigram prefilter that makes `grep` cheap, and the
//! on-disk cache that remembers both.

pub mod text;
pub mod bytes;
pub mod matcher;
pub mod commands;
pub mod newlines;
pub mod stream;
pub mod path_table;
pub mod bigram;
pub mod hits;
pub mod rows;
pub mod search;
pub mod walks;
pub mod paths;
pub mod globs;
pub mod prefilter;
pub mod pages;
pub mod render;
pub mod outline;
pub mod grouped;
pub mod cache;
pub mod json;
pub mod tools;
pub mod calls;
pub mod line_search;
pub mod multi_search;
pub mod tree;
pub mod sections;
pub mod callees;
pub mod file_map;
pub mod tally;
pub mod answers;
pub mod replies;
