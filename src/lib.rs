//! Three in-memory ordered maps over `u64` keys: a left-leaning red-black
//! tree, a multiway B-tree and a B+-tree with chained leaves. Each one is
//! specified against the same abstract view, a `Map<u64, V>`.
pub mod range_model;
pub mod rb_tree;
pub mod entries;
pub mod btree_map;
pub mod bptree;
pub mod laws;
