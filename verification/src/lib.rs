//! Verified implementations of classic data structures and algorithms:
//! a B-tree ordered set as the centerpiece, together with a binary array
//! set, a sliding-window minimum/maximum, a disjoint-set forest, a binary
//! indexed tree, prime sieves, bencode serialization, CRC-32 polynomial
//! arithmetic, one-time-password primitives, and small sequence algorithms.

pub mod seq_facts;
pub mod binary_array_set;
pub mod bencode;
pub mod binary_indexed_tree;
pub mod btree_set;
pub mod crc32_math;
pub mod disjoint_set;
pub mod sieves;
pub mod sliding_window;
pub mod text_algos;
pub mod totp;
