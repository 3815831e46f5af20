//! Maze solving on sparse graphs: a bitmap is scanned into a weighted graph
//! whose vertices are the turns and junctions of the passable region, one
//! best-first search engine is steered by a scoring function, and the
//! resulting route is expanded back into the cells it crosses.

pub mod dfs;
pub mod dijkstra;
pub mod graph;
pub mod maze;
pub mod solver;
