//! A verified model of a hierarchical navigable small-world (HNSW) vector
//! index: the rows of the index relation, the graph search and neighbour
//! selection that run over them, and the bookkeeping of product-quantization
//! codes.

pub mod error;
pub mod index;
pub mod key;
pub mod pq;
pub mod queue;
pub mod relation;
pub mod search;
pub mod table;
