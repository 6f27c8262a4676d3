//! A tile-based conveyor puzzle: directional tiles push, turn and split rigid
//! block objects on a grid, one tick at a time, until every output is filled
//! or a move is illegal.

pub mod block;
pub mod board;
pub mod cells;
pub mod flips;
pub mod groups;
pub mod helpers;
pub mod level;
pub mod merge;
pub mod motion;
pub mod output;
pub mod relevance;
pub mod resolve;
pub mod seqs;
pub mod spawn;
pub mod split;
pub mod text;
pub mod tick;
pub mod tile;
