//! Names and layers shared across the game.
use vstd::prelude::*;

verus! {

/// Names of the raw items.
pub const IRON_ORE: &'static str = "Iron Ore";
pub const COPPER_ORE: &'static str = "Copper Ore";
pub const COAL: &'static str = "Coal";

/// Names of buildings the logic refers to.
pub const HUB: &'static str = "Hub";
pub const MINING_DRILL: &'static str = "Mining Drill";
pub const CONNECTOR: &'static str = "Connector";
pub const RADAR: &'static str = "Radar";
pub const GENERATOR: &'static str = "Generator";
pub const DATACENTER: &'static str = "Datacenter";

/// The layer of resource nodes.
pub const RESOURCE_LAYER: i32 = 0;

/// The layer of buildings and construction sites.
pub const BUILDING_LAYER: i32 = 1;

} // verus!
