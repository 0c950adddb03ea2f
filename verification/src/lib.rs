//! A Sudoku solver: constraint propagation with depth-first search, on a
//! board whose structure is computed once and passed to whoever needs it.

pub mod format;
pub mod grid;
pub mod layout;
pub mod propagate;
pub mod rules;
pub mod solver;
pub mod steps;
pub mod theorems;
pub mod topology;

pub use crate::format::{center_string, format_grid, is_grid_boundary};
pub use crate::grid::Grid;
pub use crate::propagate::{assign, eliminate};
pub use crate::solver::{is_solved, most_constrained, parse_grid, search, solve, Failure};
pub use crate::topology::{cross, cross_cells, init_stuff, State};
