//! An inventory of items known by number, with their quantities.
use vstd::prelude::*;

verus! {

/// An item known by its number.
pub struct Item {
    pub id: u32,
    pub name: String,
}

/// Items by number; each number occurs once.
pub struct Inventory {
    items: Vec<(Item, u32)>,
    capacity: u32,
}

/// The quantity of each number in a list of entries (the first entry of a
/// number counts).
pub open spec fn quantities(s: Seq<(Item, u32)>) -> Map<u32, u32>
    decreases s.len(),
{
    if s.len() == 0 {
        Map::empty()
    } else {
        let rest = quantities(s.drop_last());
        if rest.dom().contains(s.last().0.id) {
            rest
        } else {
            rest.insert(s.last().0.id, s.last().1)
        }
    }
}

/// No number occurs twice.
pub open spec fn distinct_ids(s: Seq<(Item, u32)>) -> bool {
    forall|i: int, j: int| 0 <= i < j < s.len() ==> s[i].0.id != s[j].0.id
}

proof fn lemma_quantities_index(s: Seq<(Item, u32)>, i: int)
    requires
        distinct_ids(s),
        0 <= i < s.len(),
    ensures
        quantities(s).dom().contains(s[i].0.id),
        quantities(s)[s[i].0.id] == s[i].1,
    decreases s.len(),
{
    if i < s.len() - 1 {
        lemma_quantities_index(s.drop_last(), i);
        assert(s.drop_last()[i] == s[i]);
    } else {
        lemma_quantities_absent(s.drop_last(), s[i].0.id);
    }
}

proof fn lemma_quantities_absent(s: Seq<(Item, u32)>, id: u32)
    requires
        forall|j: int| 0 <= j < s.len() ==> s[j].0.id != id,
    ensures
        !quantities(s).dom().contains(id),
    decreases s.len(),
{
    if s.len() > 0 {
        lemma_quantities_absent(s.drop_last(), id);
    }
}

proof fn lemma_quantities_dom(s: Seq<(Item, u32)>, id: u32)
    ensures
        quantities(s).dom().contains(id) ==> exists|j: int| 0 <= j < s.len() && s[j].0.id == id,
    decreases s.len(),
{
    if s.len() > 0 {
        lemma_quantities_dom(s.drop_last(), id);
        if quantities(s.drop_last()).dom().contains(id) {
            let j = choose|j: int| 0 <= j < s.drop_last().len() && s.drop_last()[j].0.id == id;
            assert(s[j].0.id == id);
        }
    }
}

proof fn lemma_quantities_update(s: Seq<(Item, u32)>, i: int, q: u32)
    requires
        distinct_ids(s),
        0 <= i < s.len(),
    ensures
        quantities(s.update(i, (s[i].0, q))) == quantities(s).insert(s[i].0.id, q),
    decreases s.len(),
{
    let t = s.update(i, (s[i].0, q));
    if i == s.len() - 1 {
        assert(t.drop_last() =~= s.drop_last());
        lemma_quantities_absent(s.drop_last(), s[i].0.id);
        assert(quantities(t) =~= quantities(s).insert(s[i].0.id, q));
    } else {
        assert(t.drop_last() =~= s.drop_last().update(i, (s[i].0, q)));
        lemma_quantities_update(s.drop_last(), i, q);
        lemma_quantities_index(s.drop_last(), i);
        assert(quantities(t) =~= quantities(s).insert(s[i].0.id, q));
    }
}

proof fn lemma_quantities_remove(s: Seq<(Item, u32)>, i: int)
    requires
        distinct_ids(s),
        0 <= i < s.len(),
    ensures
        quantities(s.remove(i)) == quantities(s).remove(s[i].0.id),
    decreases s.len(),
{
    let t = s.remove(i);
    if i == s.len() - 1 {
        assert(t =~= s.drop_last());
        lemma_quantities_absent(s.drop_last(), s[i].0.id);
        assert(quantities(t) =~= quantities(s).remove(s[i].0.id));
    } else {
        assert(t.drop_last() =~= s.drop_last().remove(i));
        lemma_quantities_remove(s.drop_last(), i);
        lemma_quantities_index(s.drop_last(), i);
        assert(s.last() == t.last());
        if quantities(s.drop_last().remove(i)).dom().contains(s.last().0.id) {
            lemma_quantities_dom(s.drop_last().remove(i), s.last().0.id);
            let j = choose|j: int| 0 <= j < s.drop_last().remove(i).len() && s.drop_last().remove(i)[j].0.id == s.last().0.id;
            if j < i {
                assert(s[j].0.id == s.last().0.id);
            } else {
                assert(s[j + 1].0.id == s.last().0.id);
            }
        }
        assert(quantities(t) =~= quantities(s).remove(s[i].0.id));
    }
}

/// The name of each number in a list of entries (the first entry of a
/// number counts).
pub open spec fn names_of(s: Seq<(Item, u32)>) -> Map<u32, Seq<char>>
    decreases s.len(),
{
    if s.len() == 0 {
        Map::empty()
    } else {
        let rest = names_of(s.drop_last());
        if rest.dom().contains(s.last().0.id) {
            rest
        } else {
            rest.insert(s.last().0.id, s.last().0.name@)
        }
    }
}

proof fn lemma_names_dom(s: Seq<(Item, u32)>)
    ensures
        names_of(s).dom() == quantities(s).dom(),
    decreases s.len(),
{
    if s.len() > 0 {
        lemma_names_dom(s.drop_last());
    }
    assert(names_of(s).dom() =~= quantities(s).dom());
}

proof fn lemma_names_index(s: Seq<(Item, u32)>, i: int)
    requires
        distinct_ids(s),
        0 <= i < s.len(),
    ensures
        names_of(s).dom().contains(s[i].0.id),
        names_of(s)[s[i].0.id] == s[i].0.name@,
    decreases s.len(),
{
    if i < s.len() - 1 {
        lemma_names_index(s.drop_last(), i);
        assert(s.drop_last()[i] == s[i]);
    } else {
        lemma_quantities_absent(s.drop_last(), s[i].0.id);
        lemma_names_dom(s.drop_last());
    }
}

proof fn lemma_names_keep(s: Seq<(Item, u32)>, i: int, q: u32)
    requires
        0 <= i < s.len(),
    ensures
        names_of(s.update(i, (s[i].0, q))) == names_of(s),
    decreases s.len(),
{
    let t = s.update(i, (s[i].0, q));
    if i == s.len() - 1 {
        assert(t.drop_last() =~= s.drop_last());
    } else {
        assert(t.drop_last() =~= s.drop_last().update(i, (s[i].0, q)));
        lemma_names_keep(s.drop_last(), i, q);
    }
}

proof fn lemma_names_remove(s: Seq<(Item, u32)>, i: int)
    requires
        distinct_ids(s),
        0 <= i < s.len(),
    ensures
        names_of(s.remove(i)) == names_of(s).remove(s[i].0.id),
    decreases s.len(),
{
    let t = s.remove(i);
    if i == s.len() - 1 {
        assert(t =~= s.drop_last());
        lemma_quantities_absent(s.drop_last(), s[i].0.id);
        lemma_names_dom(s.drop_last());
        assert(names_of(t) =~= names_of(s).remove(s[i].0.id));
    } else {
        assert(t.drop_last() =~= s.drop_last().remove(i));
        lemma_names_remove(s.drop_last(), i);
        lemma_names_index(s.drop_last(), i);
        assert(names_of(t) =~= names_of(s).remove(s[i].0.id));
    }
}

impl View for Inventory {
    type V = Map<u32, u32>;

    closed spec fn view(&self) -> Map<u32, u32> {
        quantities(self.items@)
    }
}

/// The quantity of `id` in a map of quantities, zero when absent.
pub open spec fn held(m: Map<u32, u32>, id: u32) -> int {
    if m.dom().contains(id) {
        m[id] as int
    } else {
        0
    }
}

impl Inventory {
    #[verifier::type_invariant]
    closed spec fn inv(self) -> bool {
        distinct_ids(self.items@)
    }

    /// The name of each number held, as given when it was first added.
    pub closed spec fn names(self) -> Map<u32, Seq<char>> {
        names_of(self.items@)
    }

    /// The nominal capacity; it is not enforced.
    pub closed spec fn cap(self) -> u32 {
        self.capacity
    }

    pub fn capacity(&self) -> (c: u32)
        ensures
            c == self.cap(),
    {
        self.capacity
    }

    /// An empty inventory of the given capacity.
    pub fn new(capacity: u32) -> (inv: Self)
        ensures
            inv@ == Map::<u32, u32>::empty(),
            inv.cap() == capacity,
    {
        Inventory { items: Vec::new(), capacity }
    }

    fn position(&self, item_id: u32) -> (r: Option<usize>)
        ensures
            match r {
                Some(i) => i < self.items@.len() && self.items@[i as int].0.id == item_id,
                None => forall|j: int| 0 <= j < self.items@.len() ==> self.items@[j].0.id != item_id,
            },
    {
        let mut i: usize = 0;
        while i < self.items.len()
            invariant
                i <= self.items@.len(),
                forall|j: int| 0 <= j < i ==> self.items@[j].0.id != item_id,
            decreases self.items@.len() - i,
        {
            if self.items[i].0.id == item_id {
                return Some(i);
            }
            i = i + 1;
        }
        None
    }

    /// Adds `quantity` of `item`, merging with the entry of the same number.
    /// Returns the quantity added.
    pub fn add_item(&mut self, item: Item, quantity: u32) -> (added: u32)
        requires
            held(old(self)@, item.id) + quantity <= u32::MAX,
        ensures
            added == quantity,
            final(self)@ == old(self)@.insert(item.id, (held(old(self)@, item.id) + quantity) as u32),
            final(self).names() == if old(self)@.dom().contains(item.id) {
                old(self).names()
            } else {
                old(self).names().insert(item.id, item.name@)
            },
            final(self).cap() == old(self).cap(),
    {
        proof {
            use_type_invariant(&*self);
        }
        let id = item.id;
        match self.position(id) {
            Some(i) => {
                proof {
                    lemma_quantities_index(self.items@, i as int);
                    lemma_quantities_update(self.items@, i as int, (self.items@[i as int].1 + quantity) as u32);
                    lemma_names_keep(self.items@, i as int, (self.items@[i as int].1 + quantity) as u32);
                }
                let mut v: Vec<(Item, u32)> = Vec::new();
                std::mem::swap(&mut v, &mut self.items);
                let ghost before = v@;
                let (existing, current) = v.remove(i);
                v.insert(i, (existing, current + quantity));
                proof {
                    assert(v@ =~= before.update(i as int, (before[i as int].0, (before[i as int].1 + quantity) as u32)));
                }
                self.items = v;
                quantity
            },
            None => {
                proof {
                    lemma_quantities_absent(self.items@, id);
                    lemma_names_dom(self.items@);
                }
                let ghost before = self.items@;
                let mut v: Vec<(Item, u32)> = Vec::new();
                std::mem::swap(&mut v, &mut self.items);
                v.push((item, quantity));
                proof {
                    assert(v@.drop_last() =~= before);
                }
                self.items = v;
                quantity
            },
        }
    }

    /// Removes up to `quantity` of number `item_id`; the entry leaves when
    /// it runs out. Returns the quantity removed.
    pub fn remove_item(&mut self, item_id: u32, quantity: u32) -> (removed: u32)
        ensures
            removed == if held(old(self)@, item_id) < quantity {
                held(old(self)@, item_id)
            } else {
                quantity as int
            },
            final(self)@ == (if held(old(self)@, item_id) <= quantity {
                old(self)@.remove(item_id)
            } else {
                old(self)@.insert(item_id, (held(old(self)@, item_id) - quantity) as u32)
            }),
            final(self).names() == (if held(old(self)@, item_id) <= quantity {
                old(self).names().remove(item_id)
            } else {
                old(self).names()
            }),
            final(self).cap() == old(self).cap(),
    {
        proof {
            use_type_invariant(&*self);
        }
        match self.position(item_id) {
            Some(i) => {
                proof {
                    lemma_quantities_index(self.items@, i as int);
                }
                let current = self.items[i].1;
                let removed = if current < quantity {
                    current
                } else {
                    quantity
                };
                let mut v: Vec<(Item, u32)> = Vec::new();
                std::mem::swap(&mut v, &mut self.items);
                let ghost before = v@;
                let (existing, _) = v.remove(i);
                if current - removed == 0 {
                    proof {
                        lemma_quantities_remove(before, i as int);
                        lemma_names_remove(before, i as int);
                        assert(v@ =~= before.remove(i as int));
                    }
                } else {
                    v.insert(i, (existing, current - removed));
                    proof {
                        lemma_quantities_update(before, i as int, (current - removed) as u32);
                        lemma_names_keep(before, i as int, (current - removed) as u32);
                        assert(v@ =~= before.update(i as int, (before[i as int].0, (current - removed) as u32)));
                    }
                }
                self.items = v;
                removed
            },
            None => {
                proof {
                    lemma_quantities_absent(self.items@, item_id);
                    lemma_names_dom(self.items@);
                    assert(old(self)@.remove(item_id) =~= old(self)@);
                    assert(old(self).names().remove(item_id) =~= old(self).names());
                }
                0
            },
        }
    }

    pub fn get_item_quantity(&self, item_id: u32) -> (q: u32)
        ensures
            q == held(self@, item_id),
    {
        proof {
            use_type_invariant(self);
        }
        match self.position(item_id) {
            Some(i) => {
                proof {
                    lemma_quantities_index(self.items@, i as int);
                }
                self.items[i].1
            },
            None => {
                proof {
                    lemma_quantities_absent(self.items@, item_id);
                }
                0
            },
        }
    }

    /// The name of number `item_id`, when it is held.
    pub fn item_name(&self, item_id: u32) -> (r: Option<&String>)
        ensures
            self.names().dom() == self@.dom(),
            r is Some <==> self@.dom().contains(item_id),
            r matches Some(n) ==> n@ == self.names()[item_id],
    {
        proof {
            use_type_invariant(self);
            lemma_names_dom(self.items@);
        }
        match self.position(item_id) {
            Some(i) => {
                proof {
                    lemma_names_index(self.items@, i as int);
                }
                Some(&self.items[i].0.name)
            },
            None => {
                proof {
                    lemma_quantities_absent(self.items@, item_id);
                }
                None
            },
        }
    }

    pub fn has_item(&self, item_id: u32, required_quantity: u32) -> (b: bool)
        ensures
            b == (held(self@, item_id) >= required_quantity),
    {
        self.get_item_quantity(item_id) >= required_quantity
    }
}

/// The ore, the item numbered zero.
pub fn create_ore_item() -> (item: Item)
    ensures
        item.id == 0,
        item.name@ == "Ore"@,
{
    Item { id: 0, name: "Ore".to_owned() }
}

/// Moves all the ore of `sender` to `receiver`; returns how much moved.
pub fn transfer_ore(sender: &mut Inventory, receiver: &mut Inventory) -> (moved: u32)
    requires
        held(old(receiver)@, 0) + held(old(sender)@, 0) <= u32::MAX,
    ensures
        moved == held(old(sender)@, 0),
        moved > 0 ==> final(sender)@ == old(sender)@.remove(0) && final(receiver)@ == old(receiver)@.insert(
            0,
            (held(old(receiver)@, 0) + moved) as u32,
        ),
        moved == 0 ==> final(sender)@ == old(sender)@ && final(receiver)@ == old(receiver)@,
{
    let available = sender.get_item_quantity(0);
    if available == 0 {
        return 0;
    }
    let removed = sender.remove_item(0, available);
    receiver.add_item(create_ore_item(), removed);
    removed
}

} // verus!
