//! A compressed trie from byte strings to payloads, with exact lookup,
//! enumeration of the keys under a prefix, and matching of the stored keys
//! that are prefixes of a query. Every function is verified against a
//! contract over the map from keys to payloads that the trie stands for.

pub mod bytes;
mod frames;
pub mod matches_prefixes_iterator;
mod node;
pub mod paths;
pub mod sub_trie_iterator;
pub mod trie;
