//! Building definitions: category, cost, placement rules and components.
use vstd::prelude::*;
use crate::item_map::ItemMap;
use crate::materials::recipes::{RecipeDef, RecipeName};
use crate::registry::{lemma_defs_dom, lemma_defs_index, Named, Registry};
use crate::structures::validation::PlacementRule;

verus! {

pub type BuildingName = String;

/// The menu a building is listed under.
#[derive(Clone, Copy, Debug, PartialEq, Eq, Hash, Structural)]
pub enum BuildingCategory {
    Production,
    Logistics,
    Utility,
}

/// What a building costs to build.
pub struct CostDef {
    pub inputs: ItemMap,
}

impl CostDef {
    /// The cost as a nameless recipe that consumes it and produces nothing.
    pub fn to_recipe_def(&self) -> (r: RecipeDef)
        ensures
            r.name@ == Seq::<char>::empty(),
            r.inputs@ == self.inputs@,
            r.outputs@ == Map::<Seq<char>, u32>::empty(),
    {
        RecipeDef { name: String::new(), inputs: self.inputs.duplicate(), outputs: ItemMap::new() }
    }
}

/// Where a building may stand and what it costs.
pub struct PlacementDef {
    pub cost: CostDef,
    pub rules: Vec<PlacementRule>,
}

/// The shape of a building: the cells it covers when it covers more than one.
pub struct AppearanceDef {
    pub multi_cell: Option<(i32, i32)>,
}

/// A component a building is given when it is built.
pub enum BuildingComponentDef {
    PowerConsumer { amount: i32 },
    PowerGenerator { amount: i32 },
    ComputeGenerator { amount: i32 },
    ComputeConsumer { amount: i32 },
    Inventory { capacity: u32 },
    ViewRange { radius: i32 },
    NetWorkComponent,
    RecipeCrafter { recipe_name: Option<String>, available_recipes: Option<Vec<String>> },
    Scanner,
    InputPort { capacity: u32 },
    OutputPort { capacity: u32 },
    StoragePort { capacity: u32 },
}

/// The definition of a building.
pub struct BuildingDef {
    pub name: String,
    pub category: BuildingCategory,
    pub appearance: AppearanceDef,
    pub placement: PlacementDef,
    pub components: Vec<BuildingComponentDef>,
}

impl Named for BuildingDef {
    open spec fn name_view(&self) -> Seq<char> {
        self.name@
    }

    fn name(&self) -> (r: &String) {
        &self.name
    }
}

/// Building definitions by name.
pub type BuildingRegistry = Registry<BuildingDef>;

/// The names of the definitions of `category`, in registration order.
pub open spec fn names_in_category(defs: Seq<BuildingDef>, category: BuildingCategory) -> Seq<
    Seq<char>,
>
    decreases defs.len(),
{
    if defs.len() == 0 {
        Seq::empty()
    } else {
        let rest = names_in_category(defs.drop_last(), category);
        if defs.last().category == category {
            rest.push(defs.last().name@)
        } else {
            rest
        }
    }
}

/// A name is listed for a category exactly when a definition of that
/// category carries it.
proof fn lemma_names_in_category_contains(defs: Seq<BuildingDef>, category: BuildingCategory, k: Seq<char>)
    ensures
        names_in_category(defs, category).contains(k) <==> exists|i: int|
            0 <= i < defs.len() && #[trigger] defs[i].category == category && defs[i].name@ == k,
    decreases defs.len(),
{
    if defs.len() > 0 {
        let init = defs.drop_last();
        lemma_names_in_category_contains(init, category, k);
        let rest = names_in_category(init, category);
        if exists|i: int| 0 <= i < defs.len() && #[trigger] defs[i].category == category && defs[i].name@ == k {
            let i = choose|i: int| 0 <= i < defs.len() && #[trigger] defs[i].category == category && defs[i].name@ == k;
            if i < defs.len() - 1 {
                assert(init[i] == defs[i]);
                let j = choose|j: int| 0 <= j < rest.len() && rest[j] == k;
                if defs.last().category == category {
                    assert(rest.push(defs.last().name@)[j] == k);
                }
            } else {
                assert(rest.push(defs.last().name@)[rest.len() as int] == k);
            }
        }
        if names_in_category(defs, category).contains(k) {
            let j = choose|j: int| 0 <= j < names_in_category(defs, category).len() && names_in_category(defs, category)[j] == k;
            if j < rest.len() {
                assert(rest.contains(k));
                let i = choose|i: int| 0 <= i < init.len() && #[trigger] init[i].category == category && init[i].name@ == k;
                assert(defs[i] == init[i]);
            } else {
                assert(defs[defs.len() - 1].category == category);
            }
        }
    }
}

/// The characters of each string.
pub open spec fn string_views(v: Seq<String>) -> Seq<Seq<char>> {
    v.map_values(|s: String| s@)
}

impl Registry<BuildingDef> {
    /// Every registered name, in registration order.
    pub fn get_all_building_names(&self) -> (names: Vec<BuildingName>)
        ensures
            string_views(names@) == self.definitions().map_values(|d: BuildingDef| d.name@),
            names@.len() == self@.dom().len(),
            forall|k: Seq<char>| #[trigger] self@.dom().contains(k) <==> string_views(names@).contains(k),
    {
        let n = self.len();
        let mut names: Vec<BuildingName> = Vec::new();
        let mut i: usize = 0;
        while i < n
            invariant
                n == self.definitions().len(),
                i <= n,
                names@.len() == i,
                forall|j: int| 0 <= j < i ==> #[trigger] names@[j]@ == self.definitions()[j].name@,
            decreases n - i,
        {
            let def = self.definition_at(i);
            names.push(def.name.clone());
            i = i + 1;
        }
        proof {
            assert(string_views(names@) =~= self.definitions().map_values(|d: BuildingDef| d.name@));
            assert forall|k: Seq<char>| #[trigger] self@.dom().contains(k) <==> string_views(names@).contains(k) by {
                lemma_defs_dom(self.definitions(), k);
                if self@.dom().contains(k) {
                    let i = choose|i: int| 0 <= i < self.definitions().len() && self.definitions()[i].name_view() == k;
                    assert(string_views(names@)[i] == k);
                }
                if string_views(names@).contains(k) {
                    let i = choose|i: int| 0 <= i < string_views(names@).len() && string_views(names@)[i] == k;
                    assert(self.definitions()[i].name_view() == k);
                }
            }
        }
        names
    }

    /// The names of the buildings of `category`, in registration order.
    pub fn get_buildings_by_category(&self, category: BuildingCategory) -> (names: Vec<
        BuildingName,
    >)
        ensures
            string_views(names@) == names_in_category(self.definitions(), category),
            forall|k: Seq<char>|
                #[trigger] string_views(names@).contains(k) <==> (self@.dom().contains(k) && self@[k].category
                    == category),
    {
        let n = self.len();
        let mut names: Vec<BuildingName> = Vec::new();
        let mut i: usize = 0;
        while i < n
            invariant
                n == self.definitions().len(),
                i <= n,
                string_views(names@) =~= names_in_category(self.definitions().take(i as int), category),
            decreases n - i,
        {
            let def = self.definition_at(i);
            proof {
                assert(self.definitions().take(i + 1).drop_last() =~= self.definitions().take(i as int));
            }
            if def.category == category {
                names.push(def.name.clone());
            }
            i = i + 1;
        }
        proof {
            let defs = self.definitions();
            assert(defs.take(n as int) =~= defs);
            assert forall|k: Seq<char>|
                #[trigger] string_views(names@).contains(k) <==> (self@.dom().contains(k) && self@[k].category
                    == category) by {
                lemma_names_in_category_contains(defs, category, k);
                lemma_defs_dom(defs, k);
                if string_views(names@).contains(k) {
                    let i = choose|i: int| 0 <= i < defs.len() && #[trigger] defs[i].category == category && defs[i].name@ == k;
                    lemma_defs_index(defs, i);
                }
                if self@.dom().contains(k) && self@[k].category == category {
                    let i = choose|i: int| 0 <= i < defs.len() && defs[i].name_view() == k;
                    lemma_defs_index(defs, i);
                    assert(defs[i].category == category);
                }
            }
        }
        names
    }

    /// The name of the definition registered under `building_name`.
    pub fn get_name_by_name(&self, building_name: &str) -> (r: Option<String>)
        ensures
            r is Some <==> self@.dom().contains(building_name@),
            r matches Some(s) ==> s@ == self@[building_name@].name@,
    {
        match self.get_definition(building_name) {
            Some(def) => Some(def.name.clone()),
            None => None,
        }
    }
}

/// A copy of a list of names.
pub fn copy_names(v: &Vec<String>) -> (r: Vec<String>)
    ensures
        string_views(r@) == string_views(v@),
{
    let mut r: Vec<String> = Vec::new();
    let mut i: usize = 0;
    while i < v.len()
        invariant
            i <= v@.len(),
            r@.len() == i,
            forall|j: int| 0 <= j < i ==> #[trigger] r@[j]@ == v@[j]@,
        decreases v@.len() - i,
    {
        r.push(v[i].clone());
        i = i + 1;
    }
    proof {
        assert(string_views(r@) =~= string_views(v@));
    }
    r
}

/// The recipe setup of a crafter from its configuration: a fixed recipe
/// alone makes a single-recipe crafter; a list alone, a multi-recipe crafter
/// with none selected; both, a multi-recipe crafter with the recipe selected;
/// neither, an empty crafter.
pub fn crafter_setup(recipe_name: &Option<String>, available_recipes: &Option<Vec<String>>) -> (r: (
    Option<RecipeName>,
    Vec<RecipeName>,
))
    ensures
        match recipe_name {
            Some(n) => r.0 matches Some(m) && m@ == n@,
            None => r.0 is None,
        },
        match available_recipes {
            Some(list) => string_views(r.1@) == string_views(list@),
            None => r.1@.len() == 0,
        },
{
    let current = match recipe_name {
        Some(n) => Some(n.clone()),
        None => None,
    };
    let available = match available_recipes {
        Some(list) => copy_names(list),
        None => Vec::new(),
    };
    (current, available)
}

/// Whether a definition gives its building a network component.
pub fn has_network_component(def: &BuildingDef) -> (b: bool)
    ensures
        b == exists|i: int|
            0 <= i < def.components@.len() && (#[trigger] def.components@[i]) is NetWorkComponent,
{
    let mut i: usize = 0;
    while i < def.components.len()
        invariant
            i <= def.components@.len(),
            forall|j: int| 0 <= j < i ==> !((#[trigger] def.components@[j]) is NetWorkComponent),
        decreases def.components@.len() - i,
    {
        if let BuildingComponentDef::NetWorkComponent = def.components[i] {
            assert(def.components@[i as int] is NetWorkComponent);
            return true;
        }
        i = i + 1;
    }
    false
}

/// A building is listed under a category exactly when it is defined with that
/// category, in the order of definition.
pub proof fn lemma_names_in_category_law(defs: Seq<BuildingDef>, category: BuildingCategory, n: Seq<char>)
    ensures
        names_in_category(defs, category).contains(n) <==> exists|i: int|
            0 <= i < defs.len() && (#[trigger] defs[i]).category == category && defs[i].name@ == n,
        names_in_category(defs, category).len() <= defs.len(),
    decreases defs.len(),
{
    if defs.len() > 0 {
        let init = defs.drop_last();
        lemma_names_in_category_law(init, category, n);
        let rest = names_in_category(init, category);
        if exists|i: int| 0 <= i < init.len() && (#[trigger] init[i]).category == category && init[i].name@ == n {
            let i = choose|i: int| 0 <= i < init.len() && (#[trigger] init[i]).category == category && init[i].name@ == n;
            assert(defs[i] == init[i]);
            let k = choose|k: int| 0 <= k < rest.len() && rest[k] == n;
            if defs.last().category == category {
                assert(rest.push(defs.last().name@)[k] == n);
            }
        }
        if exists|i: int| 0 <= i < defs.len() && (#[trigger] defs[i]).category == category && defs[i].name@ == n {
            let i = choose|i: int| 0 <= i < defs.len() && (#[trigger] defs[i]).category == category && defs[i].name@ == n;
            if i < defs.len() - 1 {
                assert(init[i] == defs[i]);
                let k = choose|k: int| 0 <= k < rest.len() && rest[k] == n;
                if defs.last().category == category {
                    assert(rest.push(defs.last().name@)[k] == n);
                }
            } else {
                assert(names_in_category(defs, category).last() == n);
            }
        }
        if names_in_category(defs, category).contains(n) {
            let k = choose|k: int| 0 <= k < names_in_category(defs, category).len() && names_in_category(defs, category)[k] == n;
            if k < rest.len() {
                assert(rest[k] == n);
                let i = choose|i: int| 0 <= i < init.len() && (#[trigger] init[i]).category == category && init[i].name@ == n;
                assert(defs[i] == init[i]);
            } else {
                assert(defs[defs.len() - 1].category == category);
            }
        }
    }
}

} // verus!
