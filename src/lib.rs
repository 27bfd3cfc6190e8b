//! Move selection for a two-snake team on an 11x11 board: a compact board
//! model, a positional heuristic, a time-boxed alpha-beta search and a
//! per-turn move coordinator shared by the two teammates.

pub mod wire;
pub mod simple;
pub mod heuristic;
pub mod search;
pub mod coordinator;
pub mod render;
