//! Building blocks for game logic: exact fractions, and a catalog of item
//! kinds with quantities and crafting recipes.

pub mod math;
pub mod itemsys;
