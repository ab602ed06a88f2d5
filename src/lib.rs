//! A binary constraint-satisfaction engine: a store of variable domains,
//! arc-consistency propagation (AC-3) and a randomized backtracking search.
pub mod ac3;
pub mod backtrack;
pub mod impls;
pub mod solver;
pub mod tile_matcher;
pub mod tiles;
pub mod variable_provider;
