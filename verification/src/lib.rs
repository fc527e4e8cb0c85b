//! Verified solvers for a box of puzzles.
//!
//! The largest of them finds the shortest route of an agent through a
//! lattice of moving debris: `debris` seeds the debris from rules that
//! `rule_text` reads, `lattice` numbers the cells, `occupancy` records where
//! the debris is at every tick, `search` finds the route with a heuristic,
//! `exhaustive` finds it without one, and `variants` relates the two ways
//! in which debris can bar the way.
//!
//! The others are small: sums and texts (`signs`, `pricing`, `ranges`,
//! `compression`, `islands`, `letters`, `tracks`, `reduction`, `ledger`,
//! `bases`, `knapsack`), grids (`danger`, `grid_ops`, `cube`), and trees and
//! graphs (`tree`, `cycles`, `staircase`, with `walk_order` on the order in
//! which the ways up the staircases are numbered). `text` and `numeric` hold
//! what they share.

pub mod bases;
pub mod compression;
pub mod cube;
pub mod cycles;
pub mod danger;
pub mod debris;
pub mod exhaustive;
pub mod grid_ops;
pub mod islands;
pub mod knapsack;
pub mod lattice;
pub mod ledger;
pub mod letters;
pub mod numeric;
pub mod occupancy;
pub mod pricing;
pub mod ranges;
pub mod reduction;
pub mod rule_text;
pub mod search;
pub mod signs;
pub mod staircase;
pub mod text;
pub mod tracks;
pub mod tree;
pub mod variants;
pub mod walk_order;
