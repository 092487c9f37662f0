//! Chunk deduplication for a module bundler: a cycle-safe postorder traversal
//! of module graphs, the set of modules that a root pulls into its chunk, and
//! an append-only ledger of the modules that earlier chunk groups already
//! provide.

pub mod asset;
pub mod chunk;
pub mod ecmascript;
pub mod graph;
pub mod hash;
pub mod http;
pub mod index_set;
pub mod module;
pub mod nft_json;
pub mod output;
pub mod reference;
pub mod virtual_output;
