pub mod grid;
pub mod laws;
pub mod n_puzzle;
pub mod pieces;
pub mod render;
pub mod search;
