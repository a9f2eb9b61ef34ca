//! Graph search over explicit directed graphs and over a toroidal grid with
//! obstacles, together with the rover that moves on that grid.

pub mod basic_graphs;
pub mod mars_rover;
pub mod search;
