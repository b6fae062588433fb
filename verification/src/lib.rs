//! A small library of directed-graph contracts and one concrete engine.
//!
//! The `graph` module gives the minimal contract every representation must
//! meet; `weighted_graph` extends it with edge weights and provides the
//! zero-size [`weighted_graph::NoWeight`] sentinel; `searchable_graph` builds
//! depth-first and breadth-first path search on top of the minimal contract;
//! `adjacency_list_graph` is the dense adjacency-list representation that
//! implements all three.

pub mod adjacency_list_graph;
pub mod graph;
pub mod searchable_graph;
pub mod weighted_graph;
