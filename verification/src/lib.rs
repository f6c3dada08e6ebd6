//! A routing core built around a concurrent adaptive radix tree (ART):
//! order-preserving key encodings, width-polymorphic trie nodes backed by
//! bitset-guarded slot arrays, an optimistic version-lock word protocol,
//! and the exact-match `get` / `insert` / `remove` algorithms, all verified
//! against a map model of the tree's contents.

pub mod art;
pub mod bit_array;
pub mod bitset;
pub mod borrow_bag;
pub mod direct_node;
pub mod error;
pub mod guard;
pub mod index_node;
pub mod keyed_node;
pub mod keys;
pub mod laws;
pub mod leaf_node;
pub mod node;
pub mod tree;
pub mod utils;
