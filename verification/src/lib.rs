//! Static double-array tries over byte-string keys, with an adjacency-list
//! trie as a reference model.

pub mod double_array;
pub mod enumeration;
pub mod keys;
pub mod laws;
pub mod matrix;
pub mod matrix_shape;
pub mod placement;
pub mod shape;
pub mod slots;
pub mod trie_matrix;
pub mod util;
