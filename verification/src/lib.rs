//! Host and path routing for a reverse proxy: a segment-aware prefix trie, the
//! router built on it, match rules that tell where a configuration applies, and the
//! virtual-hosts dispatcher.

pub mod aliases;
pub mod configuration;
pub mod filter;
pub mod handler;
pub mod label;
pub mod match_rules;
pub mod router;
pub mod segments;
pub mod trie;
pub mod uri;
