//! A vector database core: metadata filtering and schemas over a JSON model,
//! chunk manifests, caches, storage decorators and index bookkeeping.

pub mod api;
pub mod assoc;
pub mod chunk;
pub mod chunk_cache;
pub mod chunk_loader;
pub mod client;
pub mod compression;
pub mod hnsw;
pub mod hybrid;
pub mod ivf;
pub mod json;
pub mod maintenance;
pub mod metadata_filter;
pub mod persistence;
pub mod s5;
pub mod s5_node;
pub mod schema;
pub mod search;
pub mod session;
pub mod storage;
pub mod str_map;
pub mod text;
pub mod time;
pub mod types;

use vstd::prelude::*;

verus! {

} // verus!
