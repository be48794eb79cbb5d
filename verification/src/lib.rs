//! A persistent, fixed-capacity key/value block store and the smaller
//! data structures that grew up around it: a seeded byte hasher, a record
//! codec, an incrementally growing hash map, sorting routines, trees,
//! lists, heaps, graphs and a generational id allocator.
//!
//! The store keeps its state as an exact byte image of the backing file
//! (header plus fixed-size buckets); reading and writing that image to
//! disk is left to the embedding program.

pub mod balanced_tree;
pub mod bucket_list;
pub mod codec;
pub mod store;
pub mod dlist;
pub mod ecs;
pub mod factorial;
pub mod fibonacci;
pub mod graph;
pub mod hash_map;
pub mod hasher;
pub mod huffman;
pub mod id_generator;
pub mod heap;
pub mod list;
pub mod merge_sort;
pub mod rng;
pub mod seq_util;
pub mod tree;
