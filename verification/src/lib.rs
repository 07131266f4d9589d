//! A small in-memory retrieval engine: a finite state transducer for the
//! term dictionary, an inverted index over integer document ids with the
//! cursor steps of a WAND traversal, a knowledge graph with breadth-first
//! traversal, the candidate filter and rank bookkeeping of hybrid search,
//! and the dimension check on loaded documents.

pub mod types;
pub mod byte_order;
pub mod stable_sort;
pub mod fst;
pub mod unicode;
pub mod text;
pub mod wand;
pub mod text_index;
pub mod graph;
pub mod grouping;
pub mod fusion;
pub mod candidates;
pub mod loader;
