//! An online estimator of hidden edge costs on a grid, with the shortest-path
//! search that consults it.
//!
//! - `grid`: positions, directions, lines and edges.
//! - `graph`: containers indexed by cell, line and edge; the cost interface.
//! - `dijkstra`: shortest paths under any non-negative edge costs.
//! - `model`: the structured cost model as mathematics, with its lemmas.
//! - `estimator`: the cost estimator, its caches and the annealing refit.
//! - `chance`: randomness and wall-clock time.
//! - `simulator`: a seeded local judge.
//! - `protocol`: the judge's line protocol.
//! - `session`: the driver loop and the environment it plays against.
pub mod chance;
pub mod dijkstra;
pub mod estimator;
pub mod graph;
pub mod grid;
pub mod model;
pub mod protocol;
pub mod session;
pub mod simulator;
