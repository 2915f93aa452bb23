//! An Abalone engine with a verified core: board geometry, move generation,
//! game state and the bookkeeping of a Monte-Carlo move search.

pub mod agent;
pub mod board;
pub mod cache;
pub mod coord;
pub mod distribution;
pub mod game;
pub mod moves;
pub mod order;
pub mod playout;
pub mod repetition;
pub mod sampling;
pub mod search;
pub mod selection;
pub mod tally;
pub mod visits;
