//! The lattice of candidate words over a reading, and the search through it.
pub mod segmenter;
pub mod word_node;
pub mod lattice_graph;
pub mod graph_builder;
pub mod graph_resolver;
