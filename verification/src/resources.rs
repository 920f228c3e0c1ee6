//! Ore deposits: the kinds of ore and the recipe each one's node yields.
use vstd::prelude::*;
use crate::constants::{COAL, COPPER_ORE, IRON_ORE};
use crate::grid::Position;
use crate::materials::recipes::RecipeName;

verus! {

/// A resource node on a cell.
#[derive(Clone, Copy, Debug, PartialEq, Eq, Structural)]
pub struct ResourceNode;

/// The recipe a drill on the node runs.
pub struct ResourceNodeRecipe {
    pub recipe_name: RecipeName,
}

/// The kinds of ore.
#[derive(Clone, Copy, Debug, PartialEq, Eq, Structural)]
pub enum OreType {
    Iron,
    Copper,
    Coal,
}

impl OreType {
    pub open spec fn recipe_view(self) -> Seq<char> {
        match self {
            OreType::Iron => IRON_ORE@,
            OreType::Copper => COPPER_ORE@,
            OreType::Coal => COAL@,
        }
    }

    /// The recipe that mines this ore; it is named after the ore.
    pub fn recipe_name(self) -> (r: RecipeName)
        ensures
            r@ == self.recipe_view(),
    {
        match self {
            OreType::Iron => IRON_ORE.to_owned(),
            OreType::Copper => COPPER_ORE.to_owned(),
            OreType::Coal => COAL.to_owned(),
        }
    }
}

/// A resource node to be spawned: where it lies and what it yields.
pub struct ResourceNodeBundle {
    pub node: ResourceNode,
    pub produces: ResourceNodeRecipe,
    pub position: Position,
    pub layer: i32,
}

impl ResourceNodeBundle {
    pub fn new(x: i32, y: i32, produces: ResourceNodeRecipe) -> (b: Self)
        ensures
            b.position == (Position { x, y }),
            b.produces == produces,
            b.layer == crate::constants::RESOURCE_LAYER,
    {
        ResourceNodeBundle {
            node: ResourceNode,
            produces,
            position: Position { x, y },
            layer: crate::constants::RESOURCE_LAYER,
        }
    }
}

} // verus!
