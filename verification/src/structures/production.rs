//! Crafting: input limits, one craft of a recipe, and the score of launches.
use vstd::prelude::*;
use crate::item_map::{
    ItemMap, distinct_names, map_of, sum_of, lemma_entries, lemma_prefix_lacks_next,
    lemma_sum_ge_entry, lemma_sum_prefix_mono,
};
use crate::materials::items::{
    add_all, remove_all, InputPort, InventoryAccess, ItemDef, ItemRegistry, OutputPort,
};
use crate::systems::GameScore;
use crate::materials::recipes::{RecipeDef, RecipeRegistry};
use crate::structures::construction::RecipeCrafter;

verus! {

/// `a / b` rounded up (`b > 0`).
pub open spec fn ceil_div(a: int, b: int) -> int {
    if a % b == 0 {
        a / b
    } else {
        a / b + 1
    }
}

/// The share of an input port reserved for an input: the capacity split in
/// proportion to the recipe's quantities (rounded up), but never less than
/// one batch.
pub open spec fn item_limit(capacity: int, qty: int, total: int) -> int {
    let p = ceil_div(capacity * qty, total);
    if p > qty {
        p
    } else {
        qty
    }
}

proof fn lemma_share_bound(c: int, q: int, t: int)
    requires
        0 <= c,
        0 <= q <= t,
        0 < t,
    ensures
        0 <= ceil_div(c * q, t) <= c,
{
    let a = c * q;
    assert(0 <= a <= c * t) by (nonlinear_arith)
        requires
            a == c * q,
            0 <= c,
            0 <= q <= t,
    ;
    let d = a / t;
    let r = a % t;
    assert(a == d * t + r && 0 <= r < t) by (nonlinear_arith)
        requires
            d == a / t,
            r == a % t,
            t > 0,
    ;
    if q == t {
        assert(a == c * t);
        assert(d == c && r == 0) by (nonlinear_arith)
            requires
                a == c * t,
                a == d * t + r,
                0 <= r < t,
                t > 0,
        ;
    } else {
        assert(a <= c * t - c) by (nonlinear_arith)
            requires
                a == c * q,
                q <= t - 1,
                c >= 0,
        ;
        if c > 0 {
            assert(d < c) by (nonlinear_arith)
                requires
                    a == d * t + r,
                    0 <= r,
                    a <= c * t - c,
                    c > 0,
                    t > 0,
            ;
        } else {
            assert(a == 0);
        }
        assert(d >= 0) by (nonlinear_arith)
            requires
                a == d * t + r,
                0 <= r < t,
                a >= 0,
                t > 0,
        ;
    }
}

/// Every input's limit holds at least one batch of it and is no more than
/// the port's capacity, unless one batch alone is larger.
pub proof fn lemma_item_limit_bounds(capacity: int, qty: int, total: int)
    requires
        0 <= capacity,
        0 <= qty <= total,
        0 < total,
    ensures
        qty <= item_limit(capacity, qty, total),
        item_limit(capacity, qty, total) <= if capacity > qty {
            capacity
        } else {
            qty
        },
{
    lemma_share_bound(capacity, qty, total);
}

/// The limit of each input of a recipe in an input port of `capacity`.
pub fn compute_item_limits(capacity: u32, recipe_inputs: &ItemMap) -> (limits: ItemMap)
    requires
        recipe_inputs.total() <= u32::MAX,
        recipe_inputs@.dom().len() > 0 ==> recipe_inputs.total() > 0,
    ensures
        limits@.dom() == recipe_inputs@.dom(),
        forall|k: Seq<char>|
            #![trigger limits@.dom().contains(k)]
            limits@.dom().contains(k) ==> limits@[k] == item_limit(
                capacity as int,
                recipe_inputs@[k] as int,
                recipe_inputs.total(),
            ),
{
    let mut limits = ItemMap::new();
    if recipe_inputs.is_empty() {
        proof {
            assert(limits@.dom() =~= recipe_inputs@.dom());
        }
        return limits;
    }
    let total = recipe_inputs.sum();
    let n = recipe_inputs.len();
    let ghost s = recipe_inputs.entries();
    proof {
        lemma_entries(s);
        assert(limits@ =~= map_of(s.take(0)).map_values(|q: u32| q));
    }
    let mut i: usize = 0;
    while i < n
        invariant
            n == s.len(),
            s == recipe_inputs.entries(),
            distinct_names(s),
            map_of(s) == recipe_inputs@,
            i <= n,
            total == recipe_inputs.total(),
            total > 0,
            limits@.dom() == map_of(s.take(i as int)).dom(),
            forall|k: Seq<char>|
                #![trigger limits@.dom().contains(k)]
                limits@.dom().contains(k) ==> limits@[k] == item_limit(
                    capacity as int,
                    map_of(s)[k] as int,
                    total as int,
                ),
        decreases n - i,
    {
        let (name, qty) = recipe_inputs.entry_at(i);
        proof {
            lemma_entries(s);
            lemma_prefix_lacks_next(s, i as int);
            lemma_share_bound(capacity as int, qty as int, total as int);
            assert(capacity as u64 * qty as u64 <= 0xffff_ffffu64 * 0xffff_ffffu64) by (nonlinear_arith);
        }
        let a: u64 = capacity as u64 * qty as u64;
        let b: u64 = total as u64;
        let p: u64 = if a % b == 0 {
            a / b
        } else {
            a / b + 1
        };
        let share = p as u32;
        let limit = if share > qty {
            share
        } else {
            qty
        };
        limits.insert(name.clone(), limit);
        proof {
            assert(limits@.dom() =~= map_of(s.take(i + 1)).dom());
        }
        i = i + 1;
    }
    proof {
        assert(s.take(n as int) =~= s);
        assert(limits@.dom() =~= recipe_inputs@.dom());
    }
    limits
}

impl InputPort {
    /// Sets the item limits for the crafter's recipe; without a recipe there
    /// are no limits.
    pub fn sync_limits(&mut self, recipe: Option<&RecipeDef>)
        requires
            recipe matches Some(r) ==> r.inputs.total() <= u32::MAX && (r.inputs@.dom().len() > 0
                ==> r.inputs.total() > 0),
        ensures
            final(self).items == old(self).items,
            final(self).capacity == old(self).capacity,
            match recipe {
                None => final(self).item_limits@ == Map::<Seq<char>, u32>::empty(),
                Some(r) => final(self).item_limits@.dom() == r.inputs@.dom() && forall|k: Seq<char>|
                    #![trigger final(self).item_limits@.dom().contains(k)]
                    final(self).item_limits@.dom().contains(k) ==> final(self).item_limits@[k]
                        == item_limit(
                        old(self).capacity as int,
                        r.inputs@[k] as int,
                        r.inputs.total(),
                    ),
            },
    {
        match recipe {
            None => {
                self.item_limits = ItemMap::new();
            },
            Some(r) => {
                self.item_limits = compute_item_limits(self.capacity, &r.inputs);
            },
        }
    }
}

/// The definition of the recipe a crafter is set to.
pub fn active_recipe<'a>(crafter: &RecipeCrafter, recipes: &'a RecipeRegistry) -> (r: Option<
    &'a RecipeDef,
>)
    ensures
        r == (match crafter.current_recipe {
            Some(n) => if recipes@.dom().contains(n@) {
                Some(&recipes@[n@])
            } else {
                None::<&RecipeDef>
            },
            None => None::<&RecipeDef>,
        }),
{
    match crafter.get_active_recipe() {
        Some(name) => recipes.get_definition(name.as_str()),
        None => None,
    }
}

/// The port holds every input of a recipe.
pub open spec fn holds_inputs(stock: ItemMap, inputs: Map<Seq<char>, u32>) -> bool {
    forall|k: Seq<char>| #![trigger inputs.dom().contains(k)] inputs.dom().contains(k) ==> stock.qty(k) >= inputs[k]
}

/// Takes every input of a recipe out of a stock that holds them.
pub(crate) fn consume_inputs(stock: &mut ItemMap, inputs: &ItemMap)
    requires
        holds_inputs(*old(stock), inputs@),
    ensures
        final(stock)@ == remove_all(old(stock)@, inputs@),
        final(stock).total() == old(stock).total() - inputs.total(),
{
    let n = inputs.len();
    let ghost s = inputs.entries();
    let ghost s0 = stock@;
    let ghost t0 = stock.total();
    proof {
        lemma_entries(s);
        assert(remove_all(s0, map_of(s.take(0))) =~= s0);
    }
    let mut i: usize = 0;
    while i < n
        invariant
            n == s.len(),
            s == inputs.entries(),
            distinct_names(s),
            map_of(s) == inputs@,
            i <= n,
            s0 == old(stock)@,
            t0 == old(stock).total(),
            holds_inputs(*old(stock), inputs@),
            stock@ == remove_all(s0, map_of(s.take(i as int))),
            stock.total() == t0 - sum_of(s.take(i as int)),
        decreases n - i,
    {
        let (name, q) = inputs.entry_at(i);
        proof {
            lemma_entries(s);
            lemma_prefix_lacks_next(s, i as int);
            assert(inputs@.dom().contains(s[i as int].0@));
            assert(s.take(i + 1).drop_last() =~= s.take(i as int));
        }
        stock.take(name.as_str(), q);
        proof {
            assert(stock@ =~= remove_all(s0, map_of(s.take(i + 1))));
        }
        i = i + 1;
    }
    proof {
        assert(s.take(n as int) =~= s);
    }
}

/// Adds every output of a recipe to a stock.
fn produce_outputs(stock: &mut ItemMap, outputs: &ItemMap)
    requires
        old(stock).total() + outputs.total() <= u32::MAX,
    ensures
        final(stock)@ == add_all(old(stock)@, outputs@),
        final(stock).total() == old(stock).total() + outputs.total(),
{
    let n = outputs.len();
    let ghost s = outputs.entries();
    let ghost s0 = stock@;
    let ghost t0 = stock.total();
    let _ = stock.len();
    proof {
        lemma_entries(s);
        let e = stock.entries();
        lemma_entries(e);
        assert forall|k: Seq<char>| #![trigger s0.dom().contains(k)] s0.dom().contains(k) implies s0[k] <= t0 by {
            let j = choose|j: int| 0 <= j < e.len() && e[j].0@ == k;
            lemma_sum_ge_entry(e, j);
        }
        assert(add_all(s0, map_of(s.take(0))) =~= s0);
    }
    let mut i: usize = 0;
    while i < n
        invariant
            n == s.len(),
            s == outputs.entries(),
            distinct_names(s),
            map_of(s) == outputs@,
            i <= n,
            s0 == old(stock)@,
            t0 == old(stock).total(),
            t0 + outputs.total() <= u32::MAX,
            forall|k: Seq<char>| #![trigger s0.dom().contains(k)] s0.dom().contains(k) ==> s0[k] <= t0,
            stock@ == add_all(s0, map_of(s.take(i as int))),
            stock.total() == t0 + sum_of(s.take(i as int)),
        decreases n - i,
    {
        let (name, q) = outputs.entry_at(i);
        proof {
            lemma_entries(s);
            lemma_prefix_lacks_next(s, i as int);
            assert(outputs@.dom().contains(s[i as int].0@));
            assert(s.take(i + 1).drop_last() =~= s.take(i as int));
            lemma_sum_prefix_mono(s, i + 1, s.len() as int);
            assert(s.take(s.len() as int) =~= s);
            assert(s.take(i + 1).drop_last() =~= s.take(i as int));
        }
        stock.add(name.as_str(), q);
        proof {
            assert(stock@ =~= add_all(s0, map_of(s.take(i + 1))));
        }
        i = i + 1;
    }
    proof {
        assert(s.take(n as int) =~= s);
    }
}

/// One craft of a building with both ports: when the input port holds every
/// input and the output port has room for every output, the inputs are
/// consumed and the outputs produced. Returns whether it crafted.
pub fn craft(input: &mut InputPort, output: &mut OutputPort, recipe: &RecipeDef) -> (crafted: bool)
    requires
        old(output).items.total() + recipe.outputs.total() <= u32::MAX,
    ensures
        crafted == (holds_inputs(old(input).items, recipe.inputs@) && old(output).items.total()
            + recipe.outputs.total() <= old(output).capacity),
        crafted ==> final(input).items@ == remove_all(old(input).items@, recipe.inputs@)
            && final(output).items@ == add_all(old(output).items@, recipe.outputs@),
        !crafted ==> final(input).items == old(input).items && final(output).items
            == old(output).items,
        final(input).capacity == old(input).capacity,
        final(input).item_limits == old(input).item_limits,
        final(output).capacity == old(output).capacity,
{
    let has_inputs = input.has_items_for_recipe(&recipe.inputs);
    let has_space = output.has_space_for(&recipe.outputs);
    if has_inputs && has_space {
        consume_inputs(&mut input.items, &recipe.inputs);
        produce_outputs(&mut output.items, &recipe.outputs);
        true
    } else {
        false
    }
}

/// One craft of a building with only an output port: produces the outputs
/// when there is room for them. Returns whether it crafted.
pub fn craft_source(output: &mut OutputPort, recipe: &RecipeDef) -> (crafted: bool)
    requires
        old(output).items.total() + recipe.outputs.total() <= u32::MAX,
    ensures
        crafted == (old(output).items.total() + recipe.outputs.total() <= old(output).capacity),
        crafted ==> final(output).items@ == add_all(old(output).items@, recipe.outputs@),
        !crafted ==> final(output).items == old(output).items,
        final(output).capacity == old(output).capacity,
{
    if output.has_space_for(&recipe.outputs) {
        produce_outputs(&mut output.items, &recipe.outputs);
        true
    } else {
        false
    }
}

/// One craft of a building with only an input port: consumes the inputs when
/// they are all there. Returns whether it crafted.
pub fn craft_sink(input: &mut InputPort, recipe: &RecipeDef) -> (crafted: bool)
    ensures
        crafted == holds_inputs(old(input).items, recipe.inputs@),
        crafted ==> final(input).items@ == remove_all(old(input).items@, recipe.inputs@),
        !crafted ==> final(input).items == old(input).items,
        final(input).capacity == old(input).capacity,
        final(input).item_limits == old(input).item_limits,
{
    if input.has_items_for_recipe(&recipe.inputs) {
        consume_inputs(&mut input.items, &recipe.inputs);
        true
    } else {
        false
    }
}

/// The points of launching an item of `tier`: ten times the square of the
/// tier plus one.
pub fn launch_points(tier: u32) -> (points: u64)
    requires
        tier < 65535,
    ensures
        points == 10 * (tier + 1) * (tier + 1),
{
    let t: u32 = tier + 1;
    proof {
        assert(t * t <= 65535 * 65535) by (nonlinear_arith)
            requires
                t <= 65535,
        ;
    }
    let squared: u32 = t * t;
    proof {
        assert(10 * (t * t) == 10 * t * t) by (nonlinear_arith);
    }
    10 * squared as u64
}

/// The tier of an item, zero when it is not registered.
pub open spec fn tier_of(items: Map<Seq<char>, ItemDef>, name: Seq<char>) -> int {
    if items.dom().contains(name) {
        items[name].tier as int
    } else {
        0
    }
}

/// The points a launch of `recipe` earns: ten times the square of one more
/// than the tier of its first input.
pub open spec fn reward_points(recipe: RecipeDef, items: Map<Seq<char>, ItemDef>) -> int {
    let t = tier_of(items, recipe.inputs.entries()[0].0@);
    10 * (t + 1) * (t + 1)
}

/// The tier of the first input of a recipe with inputs fits the arithmetic
/// of its launch points.
pub open spec fn first_tier_fits(recipe: RecipeDef, items: Map<Seq<char>, ItemDef>) -> bool {
    recipe.inputs.entries().len() > 0 ==> tier_of(items, recipe.inputs.entries()[0].0@) < 65535
}

/// The points a launch of `recipe` earns; nothing for a recipe without inputs.
pub fn launch_reward(recipe: &RecipeDef, items: &ItemRegistry) -> (r: Option<u64>)
    requires
        first_tier_fits(*recipe, items@),
    ensures
        recipe.inputs.entries().len() == 0 <==> r is None,
        r matches Some(p) ==> p == reward_points(*recipe, items@),
{
    if recipe.inputs.len() == 0 {
        return None;
    }
    let (name, _) = recipe.inputs.entry_at(0);
    let tier = match items.get_definition(name.as_str()) {
        Some(def) => def.tier,
        None => 0,
    };
    Some(launch_points(tier))
}

/// The definition of the recipe a crafter is set to, if it is registered.
pub open spec fn recipe_of(crafter: RecipeCrafter, recipes: Map<Seq<char>, RecipeDef>) -> Option<
    RecipeDef,
> {
    match crafter.current_recipe {
        Some(n) => if recipes.dom().contains(n@) {
            Some(recipes[n@])
        } else {
            None
        },
        None => None,
    }
}

/// The cycle of a crafter with both ports, once its timer has run out: it
/// crafts its recipe when the inputs are there and the outputs fit.
pub fn run_port_crafter(
    input: &mut InputPort,
    output: &mut OutputPort,
    crafter: &RecipeCrafter,
    recipes: &RecipeRegistry,
) -> (crafted: bool)
    requires
        recipe_of(*crafter, recipes@) matches Some(r) ==> old(output).items.total()
            + r.outputs.total() <= u32::MAX,
    ensures
        final(input).capacity == old(input).capacity,
        final(input).item_limits == old(input).item_limits,
        final(output).capacity == old(output).capacity,
        match recipe_of(*crafter, recipes@) {
            None => !crafted && final(input).items == old(input).items && final(output).items
                == old(output).items,
            Some(r) => {
                &&& crafted == (holds_inputs(old(input).items, r.inputs@)
                    && old(output).items.total() + r.outputs.total() <= old(output).capacity)
                &&& crafted ==> final(input).items@ == remove_all(old(input).items@, r.inputs@)
                    && final(output).items@ == add_all(old(output).items@, r.outputs@)
                &&& !crafted ==> final(input).items == old(input).items && final(output).items
                    == old(output).items
            },
        },
{
    match active_recipe(crafter, recipes) {
        None => false,
        Some(recipe) => craft(input, output, recipe),
    }
}

/// The cycle of a crafter with only an output port: it produces its recipe
/// when the outputs fit.
pub fn run_source_crafter(
    output: &mut OutputPort,
    crafter: &RecipeCrafter,
    recipes: &RecipeRegistry,
) -> (crafted: bool)
    requires
        recipe_of(*crafter, recipes@) matches Some(r) ==> old(output).items.total()
            + r.outputs.total() <= u32::MAX,
    ensures
        final(output).capacity == old(output).capacity,
        match recipe_of(*crafter, recipes@) {
            None => !crafted && final(output).items == old(output).items,
            Some(r) => {
                &&& crafted == (old(output).items.total() + r.outputs.total() <= old(output).capacity)
                &&& crafted ==> final(output).items@ == add_all(old(output).items@, r.outputs@)
                &&& !crafted ==> final(output).items == old(output).items
            },
        },
{
    match active_recipe(crafter, recipes) {
        None => false,
        Some(recipe) => craft_source(output, recipe),
    }
}

/// The cycle of a crafter with only an input port: it consumes its recipe's
/// inputs when they are there; on a launchpad each such craft is a launch,
/// scored by the first input of the recipe.
pub fn run_sink_crafter(
    input: &mut InputPort,
    crafter: &RecipeCrafter,
    recipes: &RecipeRegistry,
    items: &ItemRegistry,
    is_launchpad: bool,
    score: &mut GameScore,
) -> (crafted: bool)
    requires
        is_launchpad ==> (recipe_of(*crafter, recipes@) matches Some(r) ==> (holds_inputs(
            old(input).items,
            r.inputs@,
        ) && r.inputs.entries().len() > 0 ==> first_tier_fits(r, items@) && old(score).total_score
            + reward_points(r, items@) <= u64::MAX && old(score).launches_completed < u32::MAX)),
    ensures
        final(input).capacity == old(input).capacity,
        final(input).item_limits == old(input).item_limits,
        match recipe_of(*crafter, recipes@) {
            None => !crafted && final(input).items == old(input).items && *final(score) == *old(score),
            Some(r) => {
                &&& crafted == holds_inputs(old(input).items, r.inputs@)
                &&& crafted ==> final(input).items@ == remove_all(old(input).items@, r.inputs@)
                &&& !crafted ==> final(input).items == old(input).items
                &&& if crafted && is_launchpad && r.inputs.entries().len() > 0 {
                    final(score).total_score == old(score).total_score + reward_points(r, items@)
                        && final(score).launches_completed == old(score).launches_completed + 1
                } else {
                    *final(score) == *old(score)
                }
            },
        },
{
    match active_recipe(crafter, recipes) {
        None => false,
        Some(recipe) => {
            let crafted = craft_sink(input, recipe);
            if crafted && is_launchpad {
                if let Some(points) = launch_reward(recipe, items) {
                    score.record_launch(points);
                }
            }
            crafted
        },
    }
}

} // verus!
