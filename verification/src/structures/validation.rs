//! Whether a building may be placed on a cell.
use vstd::prelude::*;
use crate::constants::BUILDING_LAYER;
use crate::grid::inner;
use crate::structures::building_config::BuildingRegistry;
use crate::systems::network::{has_neighbour_in, NetworkConnectivity};

verus! {

/// A condition a cell must meet for a building to stand on it.
#[derive(Clone, Copy, Debug, PartialEq, Eq, Structural)]
pub enum PlacementRule {
    AdjacentToNetwork,
    RequiresResource,
}

/// Why a building may not be placed.
#[derive(Clone, Copy, Debug, PartialEq, Eq, Structural)]
pub enum PlacementError {
    CellNotFound,
    CellOccupied,
    NotAdjacentToNetwork,
    RequiresResourceNode,
}

impl PlacementError {
    pub open spec fn text(self) -> Seq<char> {
        match self {
            PlacementError::CellNotFound => "Cannot place building outside grid bounds!"@,
            PlacementError::CellOccupied => "Cell is already occupied!"@,
            PlacementError::NotAdjacentToNetwork => "Building must be placed adjacent to hub or connector!"@,
            PlacementError::RequiresResourceNode => "Building requires resource node!"@,
        }
    }

    /// The text shown to the player.
    pub fn message(&self) -> (s: String)
        ensures
            s@ == self.text(),
    {
        match self {
            PlacementError::CellNotFound => "Cannot place building outside grid bounds!".to_owned(),
            PlacementError::CellOccupied => "Cell is already occupied!".to_owned(),
            PlacementError::NotAdjacentToNetwork => "Building must be placed adjacent to hub or connector!".to_owned(),
            PlacementError::RequiresResourceNode => "Building requires resource node!".to_owned(),
        }
    }
}

/// What a cell holds, as far as placement is concerned: the layers of the
/// entities on it that have one, and whether one of them is a resource node.
pub struct CellContents {
    pub layers: Vec<i32>,
    pub has_resource: bool,
}

/// Some entity on the cell is on the building layer.
pub open spec fn occupied(cell: CellContents) -> bool {
    exists|i: int| 0 <= i < cell.layers@.len() && cell.layers@[i] == BUILDING_LAYER
}

/// The first rule, from the `i`-th on, that the cell breaks.
pub open spec fn first_broken_rule(
    rules: Seq<PlacementRule>,
    i: int,
    cell: CellContents,
    core: Set<(int, int)>,
    x: int,
    y: int,
) -> Option<PlacementError>
    decreases rules.len() - i,
{
    if i < 0 || i >= rules.len() {
        None
    } else {
        match rules[i] {
            PlacementRule::RequiresResource => if !cell.has_resource {
                Some(PlacementError::RequiresResourceNode)
            } else {
                first_broken_rule(rules, i + 1, cell, core, x, y)
            },
            PlacementRule::AdjacentToNetwork => if !has_neighbour_in(core, x, y) {
                Some(PlacementError::NotAdjacentToNetwork)
            } else {
                first_broken_rule(rules, i + 1, cell, core, x, y)
            },
        }
    }
}

/// The outcome of placing `building_name` at `(x, y)`: the cell must exist
/// and be free, and then every rule of the building's definition must hold,
/// checked in order; an unknown building has no rules.
pub open spec fn placement_outcome(
    rules: Option<Seq<PlacementRule>>,
    cell: Option<CellContents>,
    core: Set<(int, int)>,
    x: int,
    y: int,
) -> Result<(), PlacementError> {
    match cell {
        None => Err(PlacementError::CellNotFound),
        Some(c) => if occupied(c) {
            Err(PlacementError::CellOccupied)
        } else {
            match rules {
                None => Ok(()),
                Some(r) => match first_broken_rule(r, 0, c, core, x, y) {
                    Some(e) => Err(e),
                    None => Ok(()),
                },
            }
        },
    }
}

/// The rules of a building, when it is registered.
pub open spec fn rules_of(registry: BuildingRegistry, name: Seq<char>) -> Option<Seq<PlacementRule>> {
    if registry@.dom().contains(name) {
        Some(registry@[name].placement.rules@)
    } else {
        None
    }
}

/// Placement looks at the cell's neighbours: the cell exists and is free and
/// the building's rules ask for the network.
pub open spec fn looks_at_neighbours(
    registry: BuildingRegistry,
    name: Seq<char>,
    cell: Option<CellContents>,
) -> bool {
    &&& cell matches Some(c) && !occupied(c)
    &&& rules_of(registry, name) matches Some(r) && r.contains(PlacementRule::AdjacentToNetwork)
}

fn is_occupied(cell: &CellContents) -> (b: bool)
    ensures
        b == occupied(*cell),
{
    let mut i: usize = 0;
    while i < cell.layers.len()
        invariant
            i <= cell.layers@.len(),
            forall|j: int| 0 <= j < i ==> cell.layers@[j] != BUILDING_LAYER,
        decreases cell.layers@.len() - i,
    {
        if cell.layers[i] == BUILDING_LAYER {
            return true;
        }
        i = i + 1;
    }
    false
}

/// Decides whether `building_name` may be placed at `(grid_x, grid_y)`;
/// `cell` is `None` when the grid has no such cell.
pub fn validate_placement(
    registry: &BuildingRegistry,
    building_name: &str,
    grid_x: i32,
    grid_y: i32,
    cell: Option<&CellContents>,
    network: &NetworkConnectivity,
) -> (r: Result<(), PlacementError>)
    requires
        looks_at_neighbours(
            *registry,
            building_name@,
            match cell {
                Some(c) => Some(*c),
                None => None,
            },
        ) ==> inner(grid_x as int) && inner(grid_y as int),
    ensures
        r == placement_outcome(
            rules_of(*registry, building_name@),
            match cell {
                Some(c) => Some(*c),
                None => None,
            },
            network.core_view(),
            grid_x as int,
            grid_y as int,
        ),
{
    let c = match cell {
        None => {
            return Err(PlacementError::CellNotFound);
        },
        Some(c) => c,
    };
    if is_occupied(c) {
        return Err(PlacementError::CellOccupied);
    }
    let def = match registry.get_definition(building_name) {
        None => {
            return Ok(());
        },
        Some(d) => d,
    };
    let rules = &def.placement.rules;
    let ghost x = grid_x as int;
    let ghost y = grid_y as int;
    let mut i: usize = 0;
    while i < rules.len()
        invariant
            i <= rules@.len(),
            rules@.contains(PlacementRule::AdjacentToNetwork) ==> inner(x) && inner(y),
            x == grid_x && y == grid_y,
            cell == Some(c),
            !occupied(*c),
            rules_of(*registry, building_name@) == Some(rules@),
            first_broken_rule(rules@, 0, *c, network.core_view(), x, y) == first_broken_rule(
                rules@,
                i as int,
                *c,
                network.core_view(),
                x,
                y,
            ),
        decreases rules@.len() - i,
    {
        match rules[i] {
            PlacementRule::RequiresResource => {
                if !c.has_resource {
                    assert(first_broken_rule(rules@, i as int, *c, network.core_view(), x, y) == Some(
                        PlacementError::RequiresResourceNode,
                    ));
                    return Err(PlacementError::RequiresResourceNode);
                }
            },
            PlacementRule::AdjacentToNetwork => {
                assert(rules@[i as int] == PlacementRule::AdjacentToNetwork);
                if !network.is_adjacent_to_core_network(grid_x, grid_y) {
                    assert(first_broken_rule(rules@, i as int, *c, network.core_view(), x, y) == Some(
                        PlacementError::NotAdjacentToNetwork,
                    ));
                    return Err(PlacementError::NotAdjacentToNetwork);
                }
            },
        }
        i = i + 1;
    }
    Ok(())
}

/// One of the four cells that share an edge with `(x, y)` is in `core`.
pub open spec fn edge_neighbour_in(core: Set<(int, int)>, x: int, y: int) -> bool {
    ||| core.contains((x + 1, y))
    ||| core.contains((x - 1, y))
    ||| core.contains((x, y + 1))
    ||| core.contains((x, y - 1))
}

proof fn lemma_rules_from(
    rules: Seq<PlacementRule>,
    i: int,
    cell: CellContents,
    core: Set<(int, int)>,
    x: int,
    y: int,
)
    requires
        0 <= i <= rules.len(),
    ensures
        first_broken_rule(rules, i, cell, core, x, y) is None <==> forall|j: int|
            i <= j < rules.len() ==> match #[trigger] rules[j] {
                PlacementRule::RequiresResource => cell.has_resource,
                PlacementRule::AdjacentToNetwork => edge_neighbour_in(core, x, y),
            },
        first_broken_rule(rules, i, cell, core, x, y) == Some(PlacementError::RequiresResourceNode)
            ==> !cell.has_resource && exists|j: int|
            i <= j < rules.len() && #[trigger] rules[j] == PlacementRule::RequiresResource,
        first_broken_rule(rules, i, cell, core, x, y) == Some(PlacementError::NotAdjacentToNetwork)
            ==> !edge_neighbour_in(core, x, y) && exists|j: int|
            i <= j < rules.len() && #[trigger] rules[j] == PlacementRule::AdjacentToNetwork,
        first_broken_rule(rules, i, cell, core, x, y) matches Some(e) ==> e
            == PlacementError::RequiresResourceNode || e == PlacementError::NotAdjacentToNetwork,
    decreases rules.len() - i,
{
    if i < rules.len() {
        lemma_rules_from(rules, i + 1, cell, core, x, y);
        assert(has_neighbour_in(core, x, y) == edge_neighbour_in(core, x, y));
        if first_broken_rule(rules, i, cell, core, x, y) is None {
            assert forall|j: int| i <= j < rules.len() implies match #[trigger] rules[j] {
                PlacementRule::RequiresResource => cell.has_resource,
                PlacementRule::AdjacentToNetwork => edge_neighbour_in(core, x, y),
            } by {
                if j == i {
                } else {
                    assert(i + 1 <= j);
                }
            }
        } else {
            if forall|j: int| i <= j < rules.len() ==> match #[trigger] rules[j] {
                PlacementRule::RequiresResource => cell.has_resource,
                PlacementRule::AdjacentToNetwork => edge_neighbour_in(core, x, y),
            } {
                assert(match rules[i] {
                    PlacementRule::RequiresResource => cell.has_resource,
                    PlacementRule::AdjacentToNetwork => edge_neighbour_in(core, x, y),
                });
                assert forall|j: int| i + 1 <= j < rules.len() implies match #[trigger] rules[j] {
                    PlacementRule::RequiresResource => cell.has_resource,
                    PlacementRule::AdjacentToNetwork => edge_neighbour_in(core, x, y),
                } by {}
            }
        }
    }
}

/// What placement answers, in terms of the cell and the rules: the cell must
/// exist, then be free of any building, and then every rule must hold, where
/// a building next to the network needs a core cell sharing an edge with it
/// (a diagonal core cell does not count) and a building on a resource needs a
/// resource node on its cell. Each refusal names a rule that fails; a
/// building that is not registered has no rules.
pub proof fn lemma_placement_law(
    rules: Option<Seq<PlacementRule>>,
    cell: Option<CellContents>,
    core: Set<(int, int)>,
    x: int,
    y: int,
)
    ensures
        ({
            let r = placement_outcome(rules, cell, core, x, y);
            &&& r == Err::<(), PlacementError>(PlacementError::CellNotFound) <==> cell is None
            &&& r == Err::<(), PlacementError>(PlacementError::CellOccupied) <==> (cell matches Some(c)
                && exists|i: int| 0 <= i < c.layers@.len() && c.layers@[i] == BUILDING_LAYER)
            &&& r is Ok <==> (cell matches Some(c) && (forall|i: int|
                0 <= i < c.layers@.len() ==> c.layers@[i] != BUILDING_LAYER) && (rules matches Some(
                rs,
            ) ==> forall|j: int|
                0 <= j < rs.len() ==> match #[trigger] rs[j] {
                    PlacementRule::RequiresResource => c.has_resource,
                    PlacementRule::AdjacentToNetwork => edge_neighbour_in(core, x, y),
                }))
            &&& r == Err::<(), PlacementError>(PlacementError::NotAdjacentToNetwork) ==> !edge_neighbour_in(
                core,
                x,
                y,
            ) && (rules matches Some(rs) && rs.contains(PlacementRule::AdjacentToNetwork))
            &&& r == Err::<(), PlacementError>(PlacementError::RequiresResourceNode) ==> (cell matches Some(c)
                && !c.has_resource) && (rules matches Some(rs) && rs.contains(
                PlacementRule::RequiresResource,
            ))
        }),
{
    match cell {
        None => {},
        Some(c) => {
            match rules {
                None => {},
                Some(rs) => {
                    lemma_rules_from(rs, 0, c, core, x, y);
                    if first_broken_rule(rs, 0, c, core, x, y) == Some(PlacementError::RequiresResourceNode) {
                        let j = choose|j: int| 0 <= j < rs.len() && #[trigger] rs[j] == PlacementRule::RequiresResource;
                        assert(rs.contains(PlacementRule::RequiresResource));
                    }
                    if first_broken_rule(rs, 0, c, core, x, y) == Some(PlacementError::NotAdjacentToNetwork) {
                        let j = choose|j: int| 0 <= j < rs.len() && #[trigger] rs[j] == PlacementRule::AdjacentToNetwork;
                        assert(rs.contains(PlacementRule::AdjacentToNetwork));
                    }
                },
            }
        },
    }
}

} // verus!
