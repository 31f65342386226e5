//! A corpus of subtree fragments ("chunks") harvested from grammar derivation
//! trees: deduplicated by content, catalogued by nonterminal, numbered for
//! persistence, and served back as mutation material.
//!
//! [`ChunkStore`] is the corpus. [`ChunkStore::add_tree`] takes a tree in and
//! says which chunk files are to be written; [`ChunkStore::get_alternative_to`]
//! picks a stored subtree that can replace one derived by a given rule;
//! [`ChunkStore::get_chunk`] picks a chunk file to read. The store touches no
//! file itself: it names paths and bytes, and its caller reads and writes.
//!
//! What the functions do is stated over [`StoreState`], the store as a
//! mathematical value, in [`model`]; what holds of every store is proved in
//! [`laws`].

pub mod context;
pub mod dedup;
pub mod laws;
pub mod layout;
pub mod model;
pub mod newtypes;
mod random;
pub mod store;
pub mod tree;

pub use context::Context;
pub use model::{Occurrence, StoreState, MAX_CHUNK_NODES};
pub use newtypes::{NTermID, NodeID, RuleID};
pub use store::checkpoint::StoreParts;
pub use store::{ChunkFile, ChunkStore};
pub use tree::{Node, Tree};
