//! Maze generation and path finding on a rectangular grid.
//!
//! A perfect maze is generated with randomised Kruskal over a union-find;
//! four search engines (depth-first, breadth-first, bidirectional
//! breadth-first and A*) explore it and record a replayable step trace.
pub mod alg;
pub mod astar;
pub mod bfs;
pub mod dbfs;
pub mod dfs;
pub mod map;
pub mod point;
pub mod replay;
pub mod search;
pub mod tree;
mod union_find;

pub use alg::{run_algorithm, Algorithm};
pub use astar::{astar_search, AStar, AStarResult};
pub use bfs::{bfs_search, BfsResult, BFS};
pub use dbfs::{dbfs_search, DbfsResult, DBFS};
pub use dfs::{dfs_search, DfsResult, DFS};
pub use map::{CellState, Maze};
pub use point::{Color, Direction, Point};
