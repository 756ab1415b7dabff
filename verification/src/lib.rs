//! Equal-cost-aware shortest paths and the forwarding decisions derived from them.

pub mod graph;
pub mod paths;
pub mod pending;
pub mod dag;
pub mod search;
pub mod dijkstra;
pub mod next_hops;
pub mod fan_out;
pub mod laws;
pub mod tables;
pub mod links;
pub mod lines;
pub mod topology;
