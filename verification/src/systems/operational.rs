//! Whether a building works: the conditions it depends on and their update.
use vstd::prelude::*;
use crate::grid::{inner, Position};
use crate::materials::items::{InputPort, InventoryAccess, OutputPort};
use crate::materials::recipes::RecipeRegistry;
use crate::structures::construction::RecipeCrafter;
use crate::structures::production::{active_recipe, holds_inputs};
use crate::systems::compute::ComputeGrid;
use crate::systems::network::{has_neighbour_in, NetworkConnectivity};
use crate::systems::power::PowerGrid;

verus! {

/// One thing a building needs in order to work, with whether it is met.
#[derive(Clone, Copy, Debug, PartialEq, Eq, Structural)]
pub enum OperationalCondition {
    Network(bool),
    Power(bool),
    Compute(bool),
    HasItems(bool),
    HasInventorySpace(bool),
}

impl OperationalCondition {
    /// Whether the condition is met.
    pub open spec fn holds(self) -> bool {
        match self {
            OperationalCondition::Network(s) => s,
            OperationalCondition::Power(s) => s,
            OperationalCondition::Compute(s) => s,
            OperationalCondition::HasItems(s) => s,
            OperationalCondition::HasInventorySpace(s) => s,
        }
    }

    /// What is shown for an unmet condition; nothing for a met one.
    pub open spec fn text(self) -> Seq<char> {
        match self {
            OperationalCondition::Network(false) => "Not connected to network"@,
            OperationalCondition::Power(false) => "Insufficient power"@,
            OperationalCondition::Compute(false) => "Insufficient compute"@,
            OperationalCondition::HasItems(false) => "Missing required items"@,
            OperationalCondition::HasInventorySpace(false) => "Output full"@,
            _ => Seq::empty(),
        }
    }

    pub fn is_met(&self) -> (b: bool)
        ensures
            b == self.holds(),
    {
        match self {
            OperationalCondition::Network(s) => *s,
            OperationalCondition::Power(s) => *s,
            OperationalCondition::Compute(s) => *s,
            OperationalCondition::HasItems(s) => *s,
            OperationalCondition::HasInventorySpace(s) => *s,
        }
    }

    /// The text shown for the condition.
    pub fn message(&self) -> (s: String)
        ensures
            s@ == self.text(),
    {
        match self {
            OperationalCondition::Network(false) => "Not connected to network".to_owned(),
            OperationalCondition::Power(false) => "Insufficient power".to_owned(),
            OperationalCondition::Compute(false) => "Insufficient compute".to_owned(),
            OperationalCondition::HasItems(false) => "Missing required items".to_owned(),
            OperationalCondition::HasInventorySpace(false) => "Output full".to_owned(),
            _ => String::new(),
        }
    }
}

/// The parts of an entity that decide which conditions it has.
#[derive(Clone, Copy, Debug, PartialEq, Eq, Structural)]
pub struct BuildingParts {
    pub building: bool,
    pub power_consumer: bool,
    pub compute_consumer: bool,
    pub recipe_crafter: bool,
    pub input_port: bool,
    pub output_port: bool,
}

/// The conditions of an entity with `parts`, all unmet, in a fixed order.
pub open spec fn initial_conditions(parts: BuildingParts) -> Seq<OperationalCondition> {
    let s0 = if parts.building {
        seq![OperationalCondition::Network(false)]
    } else {
        Seq::empty()
    };
    let s1 = if parts.power_consumer {
        s0.push(OperationalCondition::Power(false))
    } else {
        s0
    };
    let s2 = if parts.compute_consumer {
        s1.push(OperationalCondition::Compute(false))
    } else {
        s1
    };
    let s3 = if parts.recipe_crafter && parts.input_port {
        s2.push(OperationalCondition::HasItems(false))
    } else {
        s2
    };
    if parts.output_port {
        s3.push(OperationalCondition::HasInventorySpace(false))
    } else {
        s3
    }
}

/// What the update of the conditions learns about the world.
pub struct StatusFacts {
    /// A cell next to the building is on the connected network.
    pub network: bool,
    /// Power left over.
    pub power_available: i32,
    /// Compute left over.
    pub compute_available: i32,
    /// Whether the input port holds the inputs of the active recipe; `None`
    /// when there is no crafter, recipe or input port to tell.
    pub has_items: Option<bool>,
    /// Whether the output port has room; `false` without an output port.
    pub has_space: bool,
}

/// A condition after the update.
pub open spec fn next_condition(c: OperationalCondition, f: StatusFacts) -> OperationalCondition {
    match c {
        OperationalCondition::Network(_) => OperationalCondition::Network(f.network),
        OperationalCondition::Power(_) => OperationalCondition::Power(f.power_available >= 0),
        OperationalCondition::Compute(_) => OperationalCondition::Compute(f.compute_available >= 0),
        OperationalCondition::HasItems(s) => OperationalCondition::HasItems(
            match f.has_items {
                Some(b) => b,
                None => s,
            },
        ),
        OperationalCondition::HasInventorySpace(_) => OperationalCondition::HasInventorySpace(
            f.has_space,
        ),
    }
}

fn next_of(c: &OperationalCondition, f: &StatusFacts) -> (n: OperationalCondition)
    ensures
        n == next_condition(*c, *f),
{
    match c {
        OperationalCondition::Network(_) => OperationalCondition::Network(f.network),
        OperationalCondition::Power(_) => OperationalCondition::Power(f.power_available >= 0),
        OperationalCondition::Compute(_) => OperationalCondition::Compute(f.compute_available >= 0),
        OperationalCondition::HasItems(s) => OperationalCondition::HasItems(
            match f.has_items {
                Some(b) => b,
                None => *s,
            },
        ),
        OperationalCondition::HasInventorySpace(_) => OperationalCondition::HasInventorySpace(
            f.has_space,
        ),
    }
}

/// Every condition of the list is met.
fn all_met(conditions: &Vec<OperationalCondition>) -> (b: bool)
    ensures
        b == forall|i: int| 0 <= i < conditions@.len() ==> (#[trigger] conditions@[i]).holds(),
{
    let mut i: usize = 0;
    while i < conditions.len()
        invariant
            i <= conditions@.len(),
            forall|j: int| 0 <= j < i ==> (#[trigger] conditions@[j]).holds(),
        decreases conditions@.len() - i,
    {
        if !conditions[i].is_met() {
            return false;
        }
        i = i + 1;
    }
    true
}

/// The conditions of a building; `None` for one that needs nothing.
pub struct Operational(pub Option<Vec<OperationalCondition>>);

impl Operational {
    /// The building works: it has no conditions, or all of them are met.
    pub open spec fn status(self) -> bool {
        match self.0 {
            None => true,
            Some(v) => forall|i: int| 0 <= i < v@.len() ==> (#[trigger] v@[i]).holds(),
        }
    }

    pub fn get_status(&self) -> (b: bool)
        ensures
            b == self.status(),
    {
        match &self.0 {
            None => true,
            Some(conditions) => all_met(conditions),
        }
    }

    /// Gives an entity its conditions, all unmet, unless it already has some.
    pub fn populate(&mut self, parts: BuildingParts)
        ensures
            (old(self).0 matches Some(v) && v@.len() > 0) ==> final(self).0 == old(self).0,
            !(old(self).0 matches Some(v) && v@.len() > 0) ==> (final(self).0 matches Some(w)
                && w@ == initial_conditions(parts)),
    {
        if let Some(conditions) = &self.0 {
            if conditions.len() > 0 {
                return;
            }
        }
        let mut conditions: Vec<OperationalCondition> = Vec::new();
        if parts.building {
            conditions.push(OperationalCondition::Network(false));
        }
        if parts.power_consumer {
            conditions.push(OperationalCondition::Power(false));
        }
        if parts.compute_consumer {
            conditions.push(OperationalCondition::Compute(false));
        }
        if parts.recipe_crafter && parts.input_port {
            conditions.push(OperationalCondition::HasItems(false));
        }
        if parts.output_port {
            conditions.push(OperationalCondition::HasInventorySpace(false));
        }
        proof {
            assert(conditions@ =~= initial_conditions(parts));
        }
        self.0 = Some(conditions);
    }

    /// Sets every condition from `facts`.
    pub fn apply_facts(&mut self, facts: &StatusFacts)
        ensures
            old(self).0 is None ==> final(self).0 is None,
            old(self).0 matches Some(v) ==> (final(self).0 matches Some(w) && w@ == v@.map_values(
                |c: OperationalCondition| next_condition(c, *facts),
            )),
    {
        match &self.0 {
            None => {},
            Some(conditions) => {
                let mut next: Vec<OperationalCondition> = Vec::new();
                let mut i: usize = 0;
                while i < conditions.len()
                    invariant
                        i <= conditions@.len(),
                        next@ =~= conditions@.take(i as int).map_values(
                            |c: OperationalCondition| next_condition(c, *facts),
                        ),
                    decreases conditions@.len() - i,
                {
                    next.push(next_of(&conditions[i], facts));
                    i = i + 1;
                }
                proof {
                    assert(conditions@.take(conditions@.len() as int) =~= conditions@);
                }
                self.0 = Some(next);
            },
        }
    }
}

/// A building that has just been given its conditions does not work until
/// they are checked, unless it has none.
pub proof fn lemma_fresh_conditions_not_operational(parts: BuildingParts, v: Vec<OperationalCondition>)
    requires
        v@ == initial_conditions(parts),
    ensures
        Operational(Some(v)).status() <==> initial_conditions(parts).len() == 0,
{
    let op = Operational(Some(v));
    if initial_conditions(parts).len() > 0 {
        assert(!v@[0].holds());
        assert(op.0 == Some(v));
        assert(op.0.unwrap()@[0] == v@[0]);
        assert(!op.status());
    } else {
        assert(op.status());
    }
}

/// What the update learns about a building at `pos` with the given parts.
pub open spec fn facts_of(
    crafter: Option<&RecipeCrafter>,
    input_port: Option<&InputPort>,
    output_port: Option<&OutputPort>,
    pos: Position,
    network: NetworkConnectivity,
    power: PowerGrid,
    compute: ComputeGrid,
    recipes: RecipeRegistry,
) -> StatusFacts {
    StatusFacts {
        network: has_neighbour_in(network.connected_view(), pos.x as int, pos.y as int),
        power_available: power.available,
        compute_available: compute.available,
        has_items: match crafter {
            None => None,
            Some(c) => match c.current_recipe {
                None => None,
                Some(n) => if !recipes@.dom().contains(n@) {
                    None
                } else {
                    match input_port {
                        None => None,
                        Some(p) => Some(holds_inputs(p.items, recipes@[n@].inputs@)),
                    }
                },
            },
        },
        has_space: match output_port {
            None => false,
            Some(p) => p.items.total() < p.capacity,
        },
    }
}

/// Some condition in the list is about the network.
pub open spec fn asks_network(conditions: Seq<OperationalCondition>) -> bool {
    exists|i: int| 0 <= i < conditions.len() && conditions[i] is Network
}

/// Some condition in the list is about room in the output.
pub open spec fn asks_space(conditions: Seq<OperationalCondition>) -> bool {
    exists|i: int| 0 <= i < conditions.len() && conditions[i] is HasInventorySpace
}

/// The facts agree with `g` on every fact that the conditions look at.
pub open spec fn agree_on(conditions: Seq<OperationalCondition>, f: StatusFacts, g: StatusFacts) -> bool {
    &&& asks_network(conditions) ==> f.network == g.network
    &&& asks_space(conditions) ==> f.has_space == g.has_space
    &&& f.power_available == g.power_available
    &&& f.compute_available == g.compute_available
    &&& f.has_items == g.has_items
}

fn kinds_asked(conditions: &Vec<OperationalCondition>) -> (r: (bool, bool))
    ensures
        r.0 == asks_network(conditions@),
        r.1 == asks_space(conditions@),
{
    let mut network = false;
    let mut space = false;
    let mut i: usize = 0;
    while i < conditions.len()
        invariant
            i <= conditions@.len(),
            network == exists|j: int| 0 <= j < i && conditions@[j] is Network,
            space == exists|j: int| 0 <= j < i && conditions@[j] is HasInventorySpace,
        decreases conditions@.len() - i,
    {
        match conditions[i] {
            OperationalCondition::Network(_) => {
                network = true;
            },
            OperationalCondition::HasInventorySpace(_) => {
                space = true;
            },
            _ => {},
        }
        proof {
            if network {
                assert(exists|j: int| 0 <= j < i + 1 && conditions@[j] is Network);
            }
            if space {
                assert(exists|j: int| 0 <= j < i + 1 && conditions@[j] is HasInventorySpace);
            }
        }
        i = i + 1;
    }
    (network, space)
}

/// Reads the world for the conditions of one building. The neighbours are
/// looked at only when `want_network` holds, the output port only when
/// `want_space` holds; a fact not looked at is `false`.
pub fn gather_facts(
    crafter: Option<&RecipeCrafter>,
    input_port: Option<&InputPort>,
    output_port: Option<&OutputPort>,
    pos: Position,
    network: &NetworkConnectivity,
    power: &PowerGrid,
    compute: &ComputeGrid,
    recipes: &RecipeRegistry,
    want_network: bool,
    want_space: bool,
) -> (f: StatusFacts)
    requires
        want_network ==> inner(pos.x as int) && inner(pos.y as int),
        want_space ==> (output_port matches Some(p) ==> p.items.total() <= u32::MAX),
    ensures
        ({
            let g = facts_of(crafter, input_port, output_port, pos, *network, *power, *compute, *recipes);
            &&& f.network == (want_network && g.network)
            &&& f.has_space == (want_space && g.has_space)
            &&& f.power_available == g.power_available
            &&& f.compute_available == g.compute_available
            &&& f.has_items == g.has_items
        }),
{
    let connected = if want_network {
        network.is_adjacent_to_connected_network(pos.x, pos.y)
    } else {
        false
    };
    let has_items = match crafter {
        None => None,
        Some(c) => match active_recipe(c, recipes) {
            None => None,
            Some(recipe) => match input_port {
                None => None,
                Some(p) => Some(p.has_items_for_recipe(&recipe.inputs)),
            },
        },
    };
    let has_space = if want_space {
        match output_port {
            None => false,
            Some(p) => !p.is_full(),
        }
    } else {
        false
    };
    StatusFacts {
        network: connected,
        power_available: power.available,
        compute_available: compute.available,
        has_items,
        has_space,
    }
}

/// Facts that agree on what the conditions look at update them alike.
proof fn lemma_agreeing_facts(v: Seq<OperationalCondition>, f: StatusFacts, g: StatusFacts)
    requires
        agree_on(v, f, g),
    ensures
        v.map_values(|c: OperationalCondition| next_condition(c, f)) == v.map_values(
            |c: OperationalCondition| next_condition(c, g),
        ),
{
    assert forall|i: int| 0 <= i < v.len() implies next_condition(v[i], f) == next_condition(
        v[i],
        g,
    ) by {
        if v[i] is Network {
            assert(asks_network(v));
        }
        if v[i] is HasInventorySpace {
            assert(asks_space(v));
        }
    }
    assert(v.map_values(|c: OperationalCondition| next_condition(c, f)) =~= v.map_values(
        |c: OperationalCondition| next_condition(c, g),
    ));
}

/// Updates the conditions of one building from the world around it. The
/// neighbours of its cell are looked at only when it has a network
/// condition, its output port only when it has an output condition.
pub fn update_operational(
    operational: &mut Operational,
    crafter: Option<&RecipeCrafter>,
    input_port: Option<&InputPort>,
    output_port: Option<&OutputPort>,
    pos: Position,
    network: &NetworkConnectivity,
    power: &PowerGrid,
    compute: &ComputeGrid,
    recipes: &RecipeRegistry,
)
    requires
        (old(operational).0 matches Some(v) && asks_network(v@)) ==> inner(pos.x as int) && inner(
            pos.y as int,
        ),
        (old(operational).0 matches Some(v) && asks_space(v@)) ==> (output_port matches Some(p)
            ==> p.items.total() <= u32::MAX),
    ensures
        ({
            let f = facts_of(crafter, input_port, output_port, pos, *network, *power, *compute, *recipes);
            &&& old(operational).0 is None ==> final(operational).0 is None
            &&& old(operational).0 matches Some(v) ==> (final(operational).0 matches Some(w) && w@
                == v@.map_values(|c: OperationalCondition| next_condition(c, f)))
        }),
{
    let (want_network, want_space) = match &operational.0 {
        None => {
            return;
        },
        Some(conditions) => kinds_asked(conditions),
    };
    let facts = gather_facts(
        crafter,
        input_port,
        output_port,
        pos,
        network,
        power,
        compute,
        recipes,
        want_network,
        want_space,
    );
    proof {
        let g = facts_of(crafter, input_port, output_port, pos, *network, *power, *compute, *recipes);
        let v = operational.0.unwrap();
        assert(agree_on(v@, facts, g));
        lemma_agreeing_facts(v@, facts, g);
    }
    operational.apply_facts(&facts);
}

/// Whether the input port holds every input of the crafter's registered
/// recipe, each in at least the recipe's quantity; `None` without a crafter,
/// a registered recipe or an input port.
pub open spec fn inputs_on_hand(
    crafter: Option<&RecipeCrafter>,
    input_port: Option<&InputPort>,
    recipes: RecipeRegistry,
) -> Option<bool> {
    match crafter {
        None => None,
        Some(c) => match c.current_recipe {
            None => None,
            Some(n) => if !recipes@.dom().contains(n@) {
                None
            } else {
                match input_port {
                    None => None,
                    Some(p) => Some(
                        forall|k: Seq<char>|
                            #![trigger recipes@[n@].inputs@.dom().contains(k)]
                            recipes@[n@].inputs@.dom().contains(k) ==> p.items.qty(k)
                                >= recipes@[n@].inputs@[k],
                    ),
                }
            },
        },
    }
}

/// What updating the conditions of a building gives, in terms of the world:
/// the conditions keep their kinds and order; a network condition holds when a
/// cell sharing an edge with the building is on the connected network; a power
/// condition holds when power left over is not negative, and a compute
/// condition when compute left over is not negative, each regardless of the
/// other grid; an items condition holds when the input port holds every
/// input of the crafter's registered recipe, and is left as it was when there
/// is no crafter, recipe or input port; an output condition holds when the
/// output port's items are fewer than its capacity, and fails without one.
pub proof fn lemma_update_law(
    crafter: Option<&RecipeCrafter>,
    input_port: Option<&InputPort>,
    output_port: Option<&OutputPort>,
    pos: Position,
    network: NetworkConnectivity,
    power: PowerGrid,
    compute: ComputeGrid,
    recipes: RecipeRegistry,
    v: Seq<OperationalCondition>,
)
    ensures
        ({
            let f = facts_of(crafter, input_port, output_port, pos, network, power, compute, recipes);
            let w = v.map_values(|c: OperationalCondition| next_condition(c, f));
            let conn = network.connected_view();
            let (x, y) = (pos.x as int, pos.y as int);
            &&& w.len() == v.len()
            &&& forall|i: int|
                0 <= i < v.len() ==> match #[trigger] v[i] {
                    OperationalCondition::Network(_) => w[i] == OperationalCondition::Network(
                        conn.contains((x + 1, y)) || conn.contains((x - 1, y)) || conn.contains(
                            (x, y + 1),
                        ) || conn.contains((x, y - 1)),
                    ),
                    OperationalCondition::Power(_) => w[i] == OperationalCondition::Power(
                        power.available >= 0,
                    ),
                    OperationalCondition::Compute(_) => w[i] == OperationalCondition::Compute(
                        compute.available >= 0,
                    ),
                    OperationalCondition::HasItems(s) => w[i] == OperationalCondition::HasItems(
                        match inputs_on_hand(crafter, input_port, recipes) {
                            Some(b) => b,
                            None => s,
                        },
                    ),
                    OperationalCondition::HasInventorySpace(_) => w[i]
                        == OperationalCondition::HasInventorySpace(
                        output_port matches Some(p) && p.items.total() < p.capacity,
                    ),
                }
        }),
{
}

/// A building works when it has no conditions listed, or when every
/// condition it has is met; one unmet condition of any kind stops it.
pub proof fn lemma_status_law(op: Operational)
    ensures
        op.0 is None ==> op.status(),
        op.0 matches Some(v) ==> (op.status() <==> forall|i: int|
            0 <= i < v@.len() ==> match #[trigger] v@[i] {
                OperationalCondition::Network(b) => b,
                OperationalCondition::Power(b) => b,
                OperationalCondition::Compute(b) => b,
                OperationalCondition::HasItems(b) => b,
                OperationalCondition::HasInventorySpace(b) => b,
            }),
{
}

} // verus!
