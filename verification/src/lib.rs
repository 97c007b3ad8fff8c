//! Pattern matching and subgraph rewriting on a tensor dataflow graph.
//!
//! A [`graph::Graph`] holds operator nodes and shape-annotated data edges in a
//! `petgraph` stable graph. A [`select::Selector`] describes a subgraph shape,
//! [`select::Selector::search`] lists every way it occurs in a graph, and
//! [`rewrite::Rule`] says how one occurrence is replaced by a single fused
//! node. [`fusion`] holds the two fusion passes built from these parts, and
//! [`laws`] what holds of every rewrite and every pass.

pub mod op;
pub mod counting;
pub mod graph;
pub mod select;
pub mod rewrite;
pub mod fusion;
pub mod laws;
