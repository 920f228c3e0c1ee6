//! The compute grid: what the working generators supply and the consumers draw.
use vstd::prelude::*;
use crate::structures::construction::{ComputeConsumer, ComputeGenerator};
use crate::systems::operational::Operational;

verus! {

/// Compute supplied, drawn and left over.
pub struct ComputeGrid {
    pub capacity: i32,
    pub usage: i32,
    pub available: i32,
}

impl Default for ComputeGrid {
    fn default() -> (g: Self)
        ensures
            g.capacity == 0 && g.usage == 0 && g.available == 0,
    {
        ComputeGrid { capacity: 0, usage: 0, available: 0 }
    }
}

/// The compute of the generators that work.
pub open spec fn compute_supplied(gens: Seq<(&ComputeGenerator, &Operational)>) -> int
    decreases gens.len(),
{
    if gens.len() == 0 {
        0
    } else {
        compute_supplied(gens.drop_last()) + if gens.last().1.status() {
            gens.last().0.amount as int
        } else {
            0
        }
    }
}

/// The compute all consumers draw.
pub open spec fn compute_drawn(cons: Seq<&ComputeConsumer>) -> int
    decreases cons.len(),
{
    if cons.len() == 0 {
        0
    } else {
        compute_drawn(cons.drop_last()) + cons.last().amount as int
    }
}

/// Every running total of the sums fits in an `i32`, as does the balance.
pub open spec fn compute_fits(gens: Seq<(&ComputeGenerator, &Operational)>, cons: Seq<&ComputeConsumer>) -> bool {
    &&& forall|i: int| 0 <= i <= gens.len() ==> i32::MIN <= #[trigger] compute_supplied(gens.take(i)) <= i32::MAX
    &&& forall|i: int| 0 <= i <= cons.len() ==> i32::MIN <= #[trigger] compute_drawn(cons.take(i)) <= i32::MAX
    &&& i32::MIN <= compute_supplied(gens) - compute_drawn(cons) <= i32::MAX
}

/// Recomputes the grid from the generators (with their status) and the consumers.
pub fn update_compute(
    grid: &mut ComputeGrid,
    generators: &Vec<(&ComputeGenerator, &Operational)>,
    consumers: &Vec<&ComputeConsumer>,
)
    requires
        compute_fits(generators@, consumers@),
    ensures
        final(grid).capacity == compute_supplied(generators@),
        final(grid).usage == compute_drawn(consumers@),
        final(grid).available == compute_supplied(generators@) - compute_drawn(consumers@),
{
    let mut production: i32 = 0;
    let mut i: usize = 0;
    while i < generators.len()
        invariant
            i <= generators@.len(),
            compute_fits(generators@, consumers@),
            production == compute_supplied(generators@.take(i as int)),
        decreases generators@.len() - i,
    {
        let (generator, operational) = generators[i];
        proof {
            assert(generators@.take(i + 1).drop_last() =~= generators@.take(i as int));
            assert(i32::MIN <= compute_supplied(generators@.take(i + 1)) <= i32::MAX);
        }
        if operational.get_status() {
            production = production + generator.amount;
        }
        i = i + 1;
    }
    let mut consumption: i32 = 0;
    let mut j: usize = 0;
    while j < consumers.len()
        invariant
            j <= consumers@.len(),
            compute_fits(generators@, consumers@),
            consumption == compute_drawn(consumers@.take(j as int)),
        decreases consumers@.len() - j,
    {
        proof {
            assert(consumers@.take(j + 1).drop_last() =~= consumers@.take(j as int));
            assert(i32::MIN <= compute_drawn(consumers@.take(j + 1)) <= i32::MAX);
        }
        consumption = consumption + consumers[j].amount;
        j = j + 1;
    }
    proof {
        assert(generators@.take(generators@.len() as int) =~= generators@);
        assert(consumers@.take(consumers@.len() as int) =~= consumers@);
    }
    grid.capacity = production;
    grid.usage = consumption;
    grid.available = production - consumption;
}

/// The compute capacity counts only generators that work: with none working it
/// is zero; the amount of a generator that does not work does not matter; and
/// changing the amount of one that works changes the capacity by as much.
pub proof fn lemma_compute_capacity_law(
    gens: Seq<(&ComputeGenerator, &Operational)>,
    i: int,
    g: &ComputeGenerator,
)
    ensures
        (forall|j: int| 0 <= j < gens.len() ==> !(#[trigger] gens[j]).1.status()) ==> compute_supplied(gens)
            == 0,
        0 <= i < gens.len() && !gens[i].1.status() ==> compute_supplied(gens.update(i, (g, gens[i].1)))
            == compute_supplied(gens),
        0 <= i < gens.len() && gens[i].1.status() ==> compute_supplied(gens.update(i, (g, gens[i].1)))
            == compute_supplied(gens) - gens[i].0.amount + g.amount,
    decreases gens.len(),
{
    if gens.len() > 0 {
        let init = gens.drop_last();
        lemma_compute_capacity_law(init, i, g);
        if (forall|j: int| 0 <= j < gens.len() ==> !(#[trigger] gens[j]).1.status()) {
            assert(forall|j: int| 0 <= j < init.len() ==> !(#[trigger] init[j]).1.status()) by {
                assert forall|j: int| 0 <= j < init.len() implies !(#[trigger] init[j]).1.status() by {
                    assert(init[j] == gens[j]);
                }
            }
            assert(!gens[gens.len() - 1].1.status());
        }
        if 0 <= i < gens.len() {
            let u = gens.update(i, (g, gens[i].1));
            if i == gens.len() - 1 {
                assert(u.drop_last() =~= init);
            } else {
                assert(u.drop_last() =~= init.update(i, (g, init[i].1)));
                assert(init[i] == gens[i]);
            }
        }
    }
}

/// Every consumer draws its amount, working or not: with no consumer nothing
/// is drawn, and changing the amount of one changes what is drawn by as much.
pub proof fn lemma_compute_usage_law(cons: Seq<&ComputeConsumer>, i: int, c: &ComputeConsumer)
    ensures
        cons.len() == 0 ==> compute_drawn(cons) == 0,
        0 <= i < cons.len() ==> compute_drawn(cons.update(i, c)) == compute_drawn(cons) - cons[i].amount + c.amount,
    decreases cons.len(),
{
    if cons.len() > 0 {
        let init = cons.drop_last();
        lemma_compute_usage_law(init, i, c);
        if 0 <= i < cons.len() {
            let u = cons.update(i, c);
            if i == cons.len() - 1 {
                assert(u.drop_last() =~= init);
            } else {
                assert(u.drop_last() =~= init.update(i, c));
                assert(init[i] == cons[i]);
            }
        }
    }
}

} // verus!
