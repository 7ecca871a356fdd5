//! Verified sliding-tile puzzle solving: a board model for the 8-puzzle,
//! 15-puzzle and the 2x2 variant, an A* search engine generic over the
//! node-ownership strategy backing its search tree, and a sequential batch
//! runner.

pub mod batch;
pub mod puzzle;
pub mod solver;
