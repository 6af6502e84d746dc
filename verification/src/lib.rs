//! Two classic in-memory combinatorial data structures: a union-find
//! (disjoint-set) structure with path compression, and a compact graph
//! represented as an incidence list (singly linked adjacency lists threaded
//! through parallel arrays), including a 2-SAT clause encoder.

pub mod disjoint_sets;
pub mod graph;
