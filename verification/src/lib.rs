//! Decision engine for a 5x5 hidden-symbol flip puzzle: packed boards,
//! combinatorics, board enumeration, symbol statistics and search rules.

pub mod control;
pub mod csp_constraints;
pub mod csp_valid;
pub mod level_constraints;
pub mod math;
pub mod packed;
pub mod parsing;
pub mod possible_boards;
pub mod search;
pub mod store;
