//! A Hex-playing engine core: board with union-find connectivity, and the
//! Monte-Carlo tree search bookkeeping that drives move generation.

pub mod coord;
pub mod outside;
pub mod connect;
pub mod board;
pub mod atomic_vec;
pub mod graph;
pub mod mcts;
pub mod command;
