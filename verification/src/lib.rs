//! Search for proper vertex colorings of an undirected graph with a
//! discrete, population-based pollination metaheuristic.
//!
//! The crate provides the adjacency structure (`structs::Graph`), candidate
//! colorings with incrementally maintained conflict counts
//! (`structs::Coloring`), greedy construction heuristics (`greedy`), the
//! pollination operators (`pollinators`), a deterministic random source with
//! an integer heavy-tailed step sampler (`rng`), and the generational search
//! loop (`search`).

pub mod greedy;
pub mod pollinators;
pub mod rng;
pub mod search;
pub mod structs;
pub mod trusted;
