//! A maze-solving library: a black-and-white pixel grid is decomposed into a
//! graph of maximal axis-aligned rectangles of clear space, the graph is
//! simplified by iterative dead-end pruning, and a uniform-cost shortest-path
//! search annotates every surviving node with its distance from the start and
//! a predecessor for path reconstruction.

pub mod graph;
pub mod image_graph;
pub mod math;
pub mod pqueue;
