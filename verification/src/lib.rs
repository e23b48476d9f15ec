use vstd::prelude::*;

pub mod room;
pub mod rng;
pub mod tree;
pub mod grid;
pub mod content;
pub mod pathfinding;
pub mod layout;
pub mod connect;
pub mod render;
pub mod crossover;
pub mod evolution;
pub mod fitness;
pub mod export;
