//! Tubes, tubings and flip graphs of finite undirected graphs, with a
//! randomized search for facet Hamiltonian paths and cycles.

pub mod reach;
pub mod graph;
pub mod tube;
pub mod parts;
pub mod order;
pub mod outside;
pub mod enumerate;
pub mod tubing;
pub mod levels;
pub mod flip;
pub mod neighbor_laws;
pub mod search;
