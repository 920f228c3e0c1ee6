//! Items, inventories, transfers and recipes.
pub mod items;
pub mod recipes;
