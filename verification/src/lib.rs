//! Finds the valid groups among a collection of items.
//!
//! An item is a row of attribute values. A group of items is valid when, at
//! every attribute position, the values of its members are all alike or all
//! different. The search lists every valid group of a given size, as item
//! indices in increasing order, in lexicographic order of the groups.

pub mod args;
pub mod order;
pub mod render;
pub mod rules;
pub mod search;
pub mod solver;

pub use crate::args::{parse_args, try_parse_args, ArgsError};
pub use crate::args::{DEFAULT_ITEMS, DEFAULT_SETS, DEFAULT_VARIANTS};
pub use crate::rules::{check_items, validate};
pub use crate::solver::{find_valid_groups, solve, Solution, Solver};
