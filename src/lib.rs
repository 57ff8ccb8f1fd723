//! Heap-profile analysis: decoding of massif's textual output into a stream of
//! caller/callee triples, identity indexing of call sites, caller-tree
//! reconstruction, call-graph aggregation and the navigation state machines
//! that a presentation layer drives.
pub mod allocation;
pub mod graph;
pub mod indexing;
pub mod iters;
pub mod lexical;
pub mod massif;
pub mod navigable_selection;
pub mod navigator;
pub mod parsing;
pub mod profile;
pub mod stream;
pub mod text;
pub mod tree;
pub mod tree_view;
