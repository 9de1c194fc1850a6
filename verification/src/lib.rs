//! Transaction-graph path analysis: bounded cycle detection, timestamp-
//! constrained path exploration, path-count summaries, intermediary-node
//! scoring, and a randomized sampling driver built on top of them.

pub mod graph;
pub mod cycles;
pub mod explore;
pub mod summary;
pub mod score;
pub mod driver;
pub mod life;
pub mod point;

pub use graph::Graph;
pub use graph::TimeMap;
