//! A solver core for a 9×9 digit puzzle in which groups of cells ("areas")
//! must add up to given sums: candidate generation, propagation, conflict
//! filtering and the decisions of a simulated-annealing search.

pub mod anneal;
pub mod area;
pub mod assign;
pub mod board;
pub mod energy;
pub mod filter;
pub mod game_config;
pub mod grid;
pub mod neighbor;
pub mod propagate;
pub mod settled;
pub mod subsets;
pub mod trace;
