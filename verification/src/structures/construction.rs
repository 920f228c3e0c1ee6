//! The components a building is made of.
use vstd::prelude::*;
use crate::constants::{COPPER_ORE, IRON_ORE, MINING_DRILL};
use crate::grid::{ExpandGridEvent, Position};
use crate::item_map::{str_eq, ItemMap};
use crate::materials::items::{InputPort, InventoryAccess, StoragePort};
use crate::materials::recipes::{RecipeDef, RecipeName};
use crate::structures::building_config::{has_network_component, BuildingRegistry};
use crate::structures::production::holds_inputs;

verus! {

/// How far a building reveals the map around it.
#[derive(Clone, Copy, Debug, PartialEq, Eq, Structural)]
pub struct ViewRange {
    pub radius: i32,
}

/// Power a building produces.
#[derive(Clone, Copy, Debug, PartialEq, Eq, Structural)]
pub struct PowerGenerator {
    pub amount: i32,
}

/// Power a building draws.
#[derive(Clone, Copy, Debug, PartialEq, Eq, Structural)]
pub struct PowerConsumer {
    pub amount: i32,
}

/// Compute a building produces.
#[derive(Clone, Copy, Debug, PartialEq, Eq, Structural)]
pub struct ComputeGenerator {
    pub amount: i32,
}

/// Compute a building draws.
#[derive(Clone, Copy, Debug, PartialEq, Eq, Structural)]
pub struct ComputeConsumer {
    pub amount: i32,
}

/// A building that carries the network further.
#[derive(Clone, Copy, Debug, PartialEq, Eq, Structural)]
pub struct NetWorkComponent;

/// A crafter whose recipe choice must be looked at again.
#[derive(Clone, Copy, Debug, PartialEq, Eq, Structural)]
pub struct NeedsRecipeCommitmentEvaluation;

/// A launchpad: it turns consumed items into score.
#[derive(Clone, Copy, Debug, PartialEq, Eq, Structural)]
pub struct Launchpad;

/// The hub, the root of the network.
#[derive(Clone, Copy, Debug, PartialEq, Eq, Structural)]
pub struct Hub;

/// A building that covers more than one cell.
#[derive(Clone, Copy, Debug, PartialEq, Eq, Structural)]
pub struct MultiCellBuilding {
    pub width: i32,
    pub height: i32,
    pub center_x: i32,
    pub center_y: i32,
}

/// A building being built: it becomes `building_name` once its cost arrived.
pub struct ConstructionSite {
    pub building_name: String,
}

/// Compares two strings by content.
pub fn same_name(a: &String, b: &String) -> (r: bool)
    ensures
        r == (a@ == b@),
{
    *a == *b
}

/// Compares two optional recipe names by content.
pub fn same_recipe(a: &Option<RecipeName>, b: &Option<RecipeName>) -> (r: bool)
    ensures
        r == (opt_view(*a) == opt_view(*b)),
{
    match (a, b) {
        (Some(x), Some(y)) => same_name(x, y),
        (None, None) => true,
        _ => false,
    }
}

/// An optional name by its characters.
pub open spec fn opt_view(o: Option<String>) -> Option<Seq<char>> {
    match o {
        Some(s) => Some(s@),
        None => None,
    }
}

/// A copy of an optional name.
pub fn clone_recipe(a: &Option<RecipeName>) -> (r: Option<RecipeName>)
    ensures
        r == *a,
{
    match a {
        Some(x) => Some(x.clone()),
        None => None,
    }
}

/// Which recipe a building crafts: a single fixed one, or one chosen from a list.
pub struct RecipeCrafter {
    pub current_recipe: Option<RecipeName>,
    pub available_recipes: Vec<RecipeName>,
}

/// Whether a name is among a list of names.
pub open spec fn names_contain(names: Seq<String>, n: Seq<char>) -> bool {
    exists|i: int| 0 <= i < names.len() && #[trigger] names[i]@ == n
}

impl RecipeCrafter {
    /// A crafter with no list to choose from.
    pub fn is_single_recipe(&self) -> (b: bool)
        ensures
            b == (self.available_recipes@.len() == 0),
    {
        self.available_recipes.len() == 0
    }

    /// A crafter that chooses its recipe from a list.
    pub fn is_multi_recipe(&self) -> (b: bool)
        ensures
            b == (self.available_recipes@.len() != 0),
    {
        self.available_recipes.len() != 0
    }

    /// The recipe being crafted.
    pub fn get_active_recipe(&self) -> (r: Option<&RecipeName>)
        ensures
            match r {
                Some(n) => self.current_recipe == Some(*n),
                None => self.current_recipe is None,
            },
    {
        match &self.current_recipe {
            Some(n) => Some(n),
            None => None,
        }
    }

    /// Whether `recipe_name` is in the list of available recipes.
    pub fn offers(&self, recipe_name: &RecipeName) -> (b: bool)
        ensures
            b == names_contain(self.available_recipes@, recipe_name@),
    {
        let mut i: usize = 0;
        while i < self.available_recipes.len()
            invariant
                i <= self.available_recipes@.len(),
                forall|j: int| 0 <= j < i ==> self.available_recipes@[j]@ != recipe_name@,
            decreases self.available_recipes@.len() - i,
        {
            if same_name(&self.available_recipes[i], recipe_name) {
                return true;
            }
            i = i + 1;
        }
        false
    }

    /// Selects a recipe: any recipe for a single-recipe crafter, else one of
    /// the available recipes. A refusal leaves the crafter unchanged and says
    /// which recipe was refused.
    pub fn set_recipe(&mut self, recipe_name: RecipeName) -> (r: Result<(), String>)
        ensures
            ({
                let allowed = old(self).available_recipes@.len() == 0 || names_contain(
                    old(self).available_recipes@,
                    recipe_name@,
                );
                &&& r is Ok <==> allowed
                &&& final(self).available_recipes == old(self).available_recipes
                &&& allowed ==> final(self).current_recipe == Some(recipe_name)
                &&& !allowed ==> final(self).current_recipe == old(self).current_recipe
                &&& r matches Err(msg) ==> msg@ == "Recipe '"@ + recipe_name@
                    + "' not available for this crafter"@
            }),
    {
        if self.is_single_recipe() || self.offers(&recipe_name) {
            self.current_recipe = Some(recipe_name);
            Ok(())
        } else {
            let mut msg = "Recipe '".to_owned();
            msg.append(recipe_name.as_str());
            msg.append("' not available for this crafter");
            Err(msg)
        }
    }
}

/// The committed and pending recipes after the crafter's recipe, `current`,
/// is looked at again.
pub open spec fn after_evaluation(
    committed: Option<Seq<char>>,
    pending: Option<Seq<char>>,
    in_transit_empty: bool,
    current: Option<Seq<char>>,
) -> (Option<Seq<char>>, Option<Seq<char>>) {
    if current == committed {
        (committed, pending)
    } else if in_transit_empty {
        (current, pending)
    } else {
        (committed, current)
    }
}

/// The committed and pending recipes after a pending recipe is committed
/// where nothing is in transit.
pub open spec fn after_commit(
    committed: Option<Seq<char>>,
    pending: Option<Seq<char>>,
    in_transit_empty: bool,
) -> (Option<Seq<char>>, Option<Seq<char>>) {
    if pending is Some && in_transit_empty {
        (pending, None)
    } else {
        (committed, pending)
    }
}

/// A recipe change waits while items for the committed recipe are on their
/// way, and is committed once none are left in transit.
pub proof fn lemma_recipe_change_waits_for_transit(
    committed: Option<Seq<char>>,
    pending: Option<Seq<char>>,
    current: Option<Seq<char>>,
)
    requires
        current != committed,
    ensures
        after_evaluation(committed, pending, false, current) == (committed, current),
        after_commit(committed, current, false) == (committed, current),
        current is Some ==> after_commit(committed, current, true) == (current, None::<Seq<char>>),
        after_evaluation(committed, pending, true, current) == (current, pending),
{
}

/// The recipe a crafter has committed its inputs to, the one it waits to
/// switch to, and the items already on their way for the committed one.
pub struct RecipeCommitment {
    pub committed_recipe: Option<RecipeName>,
    pub pending_recipe: Option<RecipeName>,
    pub in_transit: ItemMap,
}

impl RecipeCommitment {
    /// A commitment to `recipe`, with nothing pending and nothing in transit.
    pub fn new_committed(recipe: Option<RecipeName>) -> (c: Self)
        ensures
            c.committed_recipe == recipe,
            c.pending_recipe is None,
            c.in_transit@ == Map::<Seq<char>, u32>::empty(),
    {
        RecipeCommitment { committed_recipe: recipe, pending_recipe: None, in_transit: ItemMap::new() }
    }

    /// Records items sent toward the crafter.
    pub fn add_in_transit(&mut self, items: &ItemMap)
        requires
            forall|k: Seq<char>|
                #![trigger items@.dom().contains(k)]
                items@.dom().contains(k) ==> old(self).in_transit.qty(k) + items@[k] <= u32::MAX,
        ensures
            final(self).in_transit@ == crate::materials::items::add_all(old(self).in_transit@, items@),
            final(self).committed_recipe == old(self).committed_recipe,
            final(self).pending_recipe == old(self).pending_recipe,
    {
        let n = items.len();
        let ghost s = items.entries();
        let ghost start = self.in_transit@;
        proof {
            crate::item_map::lemma_entries(s);
            assert(crate::materials::items::add_all(start, crate::item_map::map_of(s.take(0))) =~= start);
        }
        let mut i: usize = 0;
        while i < n
            invariant
                n == s.len(),
                s == items.entries(),
                crate::item_map::distinct_names(s),
                crate::item_map::map_of(s) == items@,
                i <= n,
                self.in_transit@ == crate::materials::items::add_all(start, crate::item_map::map_of(s.take(i as int))),
                self.committed_recipe == old(self).committed_recipe,
                self.pending_recipe == old(self).pending_recipe,
                start == old(self).in_transit@,
                forall|k: Seq<char>|
                    #![trigger items@.dom().contains(k)]
                    items@.dom().contains(k) ==> crate::materials::items::qty_in(start, k) + items@[k] <= u32::MAX,
            decreases n - i,
        {
            let (name, q) = items.entry_at(i);
            proof {
                crate::item_map::lemma_entries(s);
                crate::item_map::lemma_prefix_lacks_next(s, i as int);
                assert(items@.dom().contains(s[i as int].0@));
            }
            self.in_transit.add(name.as_str(), q);
            proof {
                assert(self.in_transit@ =~= crate::materials::items::add_all(start, crate::item_map::map_of(s.take(i + 1))));
            }
            i = i + 1;
        }
        proof {
            assert(s.take(n as int) =~= s);
        }
    }

    /// A new recipe may be committed once nothing is in transit.
    pub fn can_commit_new_recipe(&self) -> (b: bool)
        ensures
            b == (self.in_transit@.dom().len() == 0),
    {
        self.in_transit.is_empty()
    }

    /// Looks at the crafter's recipe again: a change is committed at once when
    /// nothing is in transit, and is kept pending otherwise.
    pub fn evaluate(&mut self, crafter: &RecipeCrafter)
        ensures
            final(self).in_transit == old(self).in_transit,
            (opt_view(final(self).committed_recipe), opt_view(final(self).pending_recipe))
                == after_evaluation(
                opt_view(old(self).committed_recipe),
                opt_view(old(self).pending_recipe),
                old(self).in_transit@.dom().len() == 0,
                opt_view(crafter.current_recipe),
            ),
            opt_view(crafter.current_recipe) == opt_view(old(self).committed_recipe) ==> (
            final(self).committed_recipe == old(self).committed_recipe
                && final(self).pending_recipe == old(self).pending_recipe),
            opt_view(crafter.current_recipe) != opt_view(old(self).committed_recipe)
                && old(self).in_transit@.dom().len() == 0 ==> (final(self).committed_recipe
                == crafter.current_recipe && final(self).pending_recipe
                == old(self).pending_recipe),
            opt_view(crafter.current_recipe) != opt_view(old(self).committed_recipe)
                && old(self).in_transit@.dom().len() != 0 ==> (final(self).committed_recipe
                == old(self).committed_recipe && final(self).pending_recipe
                == crafter.current_recipe),
    {
        let current = clone_recipe(&crafter.current_recipe);
        if same_recipe(&current, &self.committed_recipe) {
            return;
        }
        if self.can_commit_new_recipe() {
            self.committed_recipe = current;
        } else {
            self.pending_recipe = current;
        }
    }

    /// Commits the pending recipe once nothing is in transit.
    pub fn commit_pending(&mut self)
        ensures
            final(self).in_transit == old(self).in_transit,
            (opt_view(final(self).committed_recipe), opt_view(final(self).pending_recipe))
                == after_commit(
                opt_view(old(self).committed_recipe),
                opt_view(old(self).pending_recipe),
                old(self).in_transit@.dom().len() == 0,
            ),
            old(self).pending_recipe is Some && old(self).in_transit@.dom().len() == 0 ==> (
            final(self).committed_recipe == old(self).pending_recipe
                && final(self).pending_recipe is None),
            !(old(self).pending_recipe is Some && old(self).in_transit@.dom().len() == 0) ==> (
            final(self).committed_recipe == old(self).committed_recipe
                && final(self).pending_recipe == old(self).pending_recipe),
    {
        if self.pending_recipe.is_some() && self.can_commit_new_recipe() {
            self.committed_recipe = self.pending_recipe.take();
            self.pending_recipe = None;
        }
    }
}

/// A building placed on the map.
#[derive(Clone, Copy, Debug, PartialEq, Eq, Structural)]
pub struct Building;

/// What a building cost, as a recipe that consumes it.
pub struct BuildingCost {
    pub cost: RecipeDef,
}

/// The cells the hub covers: three by three around the origin.
pub fn hub_footprint() -> (m: MultiCellBuilding)
    ensures
        m == (MultiCellBuilding { width: 3, height: 3, center_x: 0, center_y: 0 }),
{
    MultiCellBuilding { width: 3, height: 3, center_x: 0, center_y: 0 }
}

/// The hub's storage at the start: room for ten thousand items, holding four
/// hundred iron ore and four hundred copper ore.
pub fn hub_storage() -> (p: StoragePort)
    ensures
        p.capacity == 10000,
        p.items@ == map![IRON_ORE@ => 400u32, COPPER_ORE@ => 400u32],
{
    let mut storage_port = StoragePort::new(10000);
    proof {
        reveal_strlit("Iron Ore");
        reveal_strlit("Copper Ore");
    }
    storage_port.add_item(IRON_ORE, 400);
    storage_port.add_item(COPPER_ORE, 400);
    proof {
        assert(IRON_ORE@[0] != COPPER_ORE@[0]);
        assert(storage_port.items@ =~= map![IRON_ORE@ => 400u32, COPPER_ORE@ => 400u32]);
    }
    storage_port
}

/// The input port a construction site collects its materials in: empty,
/// with room for a thousand items.
pub fn construction_site_port() -> (p: InputPort)
    ensures
        p.capacity == 1000,
        p.items@ == Map::<Seq<char>, u32>::empty(),
        p.item_limits@ == Map::<Seq<char>, u32>::empty(),
{
    InputPort::new(1000)
}

/// A construction site is done once its input port holds its whole cost.
pub fn construction_complete(input: &InputPort, cost: &BuildingCost) -> (b: bool)
    ensures
        b == holds_inputs(input.items, cost.cost.inputs@),
{
    input.has_items_for_recipe(&cost.cost.inputs)
}

/// A finished mining drill waits for the recipe of the node under it.
pub fn needs_drill_assignment(site: &ConstructionSite) -> (b: bool)
    ensures
        b == (site.building_name@ == MINING_DRILL@),
{
    str_eq(site.building_name.as_str(), MINING_DRILL)
}

/// A building that sees further than its own cell reveals the map around it.
pub fn view_range_expansion(view_range: &ViewRange, position: &Position) -> (e: Option<
    ExpandGridEvent,
>)
    ensures
        view_range.radius > 0 ==> e == Some(
            ExpandGridEvent { center_x: position.x, center_y: position.y, radius: view_range.radius },
        ),
        view_range.radius <= 0 ==> e is None,
{
    if view_range.radius > 0 {
        Some(
            ExpandGridEvent {
                center_x: position.x,
                center_y: position.y,
                radius: view_range.radius,
            },
        )
    } else {
        None
    }
}

/// What a construction site for `building_name` is given: the cost of the
/// building, and whether it carries the network already while being built.
/// `None` for an unknown building.
pub fn construction_site_setup(registry: &BuildingRegistry, building_name: &str) -> (r: Option<
    (BuildingCost, bool),
>)
    ensures
        r is Some <==> registry@.dom().contains(building_name@),
        r matches Some(p) ==> {
            let def = registry@[building_name@];
            &&& p.0.cost.name@ == Seq::<char>::empty()
            &&& p.0.cost.inputs@ == def.placement.cost.inputs@
            &&& p.0.cost.outputs@ == Map::<Seq<char>, u32>::empty()
            &&& p.1 == exists|i: int|
                0 <= i < def.components@.len() && (#[trigger] def.components@[i]) is NetWorkComponent
        },
{
    match registry.get_definition(building_name) {
        None => None,
        Some(def) => {
            let cost = BuildingCost { cost: def.placement.cost.to_recipe_def() };
            let network = has_network_component(def);
            Some((cost, network))
        },
    }
}

/// The positions, in a cell's list of entities, of the buildings and
/// construction sites standing at `(x, y)`, in increasing order. Each entry is
/// the position of a building or site, `None` for any other entity.
pub fn removal_indices(children: &Vec<Option<Position>>, x: i32, y: i32) -> (r: Vec<usize>)
    ensures
        forall|i: int| 0 <= i < r@.len() ==> (#[trigger] r@[i]) < children@.len(),
        forall|i: int, j: int| 0 <= i < j < r@.len() ==> #[trigger] r@[i] < #[trigger] r@[j],
        forall|k: int|
            0 <= k < children@.len() ==> (r@.contains(k as usize) <==> #[trigger] children@[k]
                == Some(Position { x, y })),
{
    let mut r: Vec<usize> = Vec::new();
    let mut k: usize = 0;
    while k < children.len()
        invariant
            k <= children@.len(),
            forall|i: int| 0 <= i < r@.len() ==> (#[trigger] r@[i]) < k,
            forall|i: int, j: int| 0 <= i < j < r@.len() ==> #[trigger] r@[i] < #[trigger] r@[j],
            forall|m: int|
                0 <= m < k ==> (r@.contains(m as usize) <==> #[trigger] children@[m] == Some(
                    Position { x, y },
                )),
        decreases children@.len() - k,
    {
        let here = match children[k] {
            Some(p) => p.x == x && p.y == y,
            None => false,
        };
        let ghost before = r@;
        if here {
            r.push(k);
        }
        proof {
            assert(here <==> children@[k as int] == Some(Position { x, y }));
            assert forall|m: int| 0 <= m < k + 1 implies (r@.contains(m as usize) <==> #[trigger] children@[m] == Some(Position { x, y })) by {
                if here {
                    assert(r@ == before.push(k));
                    if r@.contains(m as usize) && m != k {
                        let i = choose|i: int| 0 <= i < r@.len() && r@[i] == m as usize;
                        assert(i < before.len());
                        assert(before[i] == m as usize);
                    }
                    if m < k && before.contains(m as usize) {
                        let i = choose|i: int| 0 <= i < before.len() && before[i] == m as usize;
                        assert(r@[i] == m as usize);
                    }
                    if m == k {
                        assert(r@[before.len() as int] == k);
                    }
                } else {
                    if m == k && before.contains(m as usize) {
                        let i = choose|i: int| 0 <= i < before.len() && before[i] == m as usize;
                        assert(before[i] < k);
                    }
                }
            }
        }
        k = k + 1;
    }
    r
}

} // verus!
