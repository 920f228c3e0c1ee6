//! Verified game logic of a factory-building simulation: inventories and item
//! transfers, recipes and crafting, the building network, placement rules,
//! operational status and progressive map exploration.
pub mod constants;
pub mod grid;
pub mod item_map;
pub mod items;
pub mod materials;
pub mod registry;
pub mod resources;
pub mod structures;
pub mod systems;
pub mod ui;
