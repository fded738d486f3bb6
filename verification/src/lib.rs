//! A file-backed knowledge store with relevance-ranked recall.

pub mod builtin_plugins;
pub mod clock;
pub mod confidence;
pub mod config;
pub mod context;
pub mod entry;
pub mod frontmatter;
pub mod hooks;
pub mod laws;
pub mod mcp;
pub mod number;
pub mod order;
pub mod plugins;
pub mod report;
pub mod results;
pub mod roundtrip;
pub mod runner;
pub mod search;
pub mod store;
pub mod supersession;
pub mod text;
pub mod text_lemmas;
pub mod unicode;
pub mod wide;
