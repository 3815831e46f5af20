//! One best-first search engine and the scoring functions that steer it.

pub mod frontier;
pub mod heuristic;
pub mod route;
pub mod search;

pub use self::search::search;
