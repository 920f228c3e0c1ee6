//! Item inventories (ports and cargo) and the transfer of items between them.
use vstd::prelude::*;
use crate::item_map::{ItemMap, distinct_names, map_of, sum_of, lemma_entries, lemma_prefix_lacks_next};
use crate::registry::{Named, Registry};
use vstd::math::min;

verus! {

pub type ItemName = String;

/// `m` with `q` taken from the quantity of `k`; the entry leaves when it reaches zero.
pub open spec fn after_removal(m: Map<Seq<char>, u32>, k: Seq<char>, q: u32) -> Map<
    Seq<char>,
    u32,
> {
    if !m.dom().contains(k) {
        m
    } else if m[k] <= q {
        m.remove(k)
    } else {
        m.insert(k, (m[k] - q) as u32)
    }
}

/// The quantity of `k` in a map, zero when absent.
pub open spec fn qty_in(m: Map<Seq<char>, u32>, k: Seq<char>) -> int {
    if m.dom().contains(k) {
        m[k] as int
    } else {
        0
    }
}

/// `held` after taking, for every name of `taken`, that quantity (or all of it).
pub open spec fn remove_all(held: Map<Seq<char>, u32>, taken: Map<Seq<char>, u32>) -> Map<
    Seq<char>,
    u32,
> {
    Map::new(
        |k: Seq<char>| held.dom().contains(k) && !(taken.dom().contains(k) && held[k] <= taken[k]),
        |k: Seq<char>|
            if taken.dom().contains(k) {
                (held[k] - taken[k]) as u32
            } else {
                held[k]
            },
    )
}

/// `held` after receiving every quantity of `given`.
pub open spec fn add_all(held: Map<Seq<char>, u32>, given: Map<Seq<char>, u32>) -> Map<
    Seq<char>,
    u32,
> {
    Map::new(
        |k: Seq<char>| held.dom().contains(k) || given.dom().contains(k),
        |k: Seq<char>| (qty_in(held, k) + qty_in(given, k)) as u32,
    )
}

/// What a removal of `taken` from `held` actually yields: the positive amounts.
pub open spec fn yield_of(held: Map<Seq<char>, u32>, taken: Map<Seq<char>, u32>) -> Map<
    Seq<char>,
    u32,
> {
    Map::new(
        |k: Seq<char>| taken.dom().contains(k) && qty_in(held, k) > 0 && taken[k] > 0,
        |k: Seq<char>| min(qty_in(held, k), taken[k] as int) as u32,
    )
}

/// Common access to anything that holds items up to a capacity.
pub trait InventoryAccess {
    /// The items held.
    spec fn stock(&self) -> ItemMap;

    /// The nominal capacity.
    spec fn cap(&self) -> u32;

    fn items(&self) -> (r: &ItemMap)
        ensures
            *r == self.stock(),
    ;

    fn items_mut(&mut self) -> (r: &mut ItemMap)
        ensures
            *r == old(self).stock(),
            final(self).stock() == *final(r),
            final(self).cap() == old(self).cap(),
    ;

    fn capacity(&self) -> (c: u32)
        ensures
            c == self.cap(),
    ;

    /// Adds `quantity` of `item_name`; capacity is not enforced here.
    fn add_item(&mut self, item_name: &str, quantity: u32) -> (added: u32)
        requires
            old(self).stock().qty(item_name@) + quantity <= u32::MAX,
        ensures
            added == quantity,
            final(self).stock()@ == old(self).stock()@.insert(
                item_name@,
                (old(self).stock().qty(item_name@) + quantity) as u32,
            ),
            final(self).stock().total() == old(self).stock().total() + quantity,
            final(self).cap() == old(self).cap(),
    {
        self.items_mut().add(item_name, quantity);
        quantity
    }

    /// Removes up to `quantity` of `item_name`; the entry leaves when it runs out.
    fn remove_item(&mut self, item_name: &str, quantity: u32) -> (removed: u32)
        ensures
            removed == min(old(self).stock().qty(item_name@), quantity as int),
            final(self).stock()@ == after_removal(old(self).stock()@, item_name@, quantity),
            final(self).stock().total() == old(self).stock().total() - removed,
            final(self).cap() == old(self).cap(),
    {
        self.items_mut().take(item_name, quantity)
    }

    fn get_item_quantity(&self, item_name: &str) -> (q: u32)
        ensures
            q == self.stock().qty(item_name@),
    {
        self.items().quantity(item_name)
    }

    fn get_total_quantity(&self) -> (t: u32)
        requires
            self.stock().total() <= u32::MAX,
        ensures
            t == self.stock().total(),
    {
        self.items().sum()
    }

    fn is_full(&self) -> (b: bool)
        requires
            self.stock().total() <= u32::MAX,
        ensures
            b == (self.stock().total() >= self.cap()),
    {
        self.get_total_quantity() >= self.capacity()
    }

    fn is_empty(&self) -> (b: bool)
        ensures
            b == (self.stock()@.dom().len() == 0),
    {
        self.items().is_empty()
    }

    fn has_space_for(&self, items: &ItemMap) -> (b: bool)
        requires
            self.stock().total() + items.total() <= u32::MAX,
        ensures
            b == (self.stock().total() + items.total() <= self.cap()),
    {
        proof {
            crate::item_map::lemma_sum_nonneg(self.stock().entries());
            crate::item_map::lemma_sum_nonneg(items.entries());
        }
        let current_quantity = self.get_total_quantity();
        let total_quantity = items.sum();
        current_quantity + total_quantity <= self.capacity()
    }

    fn has_at_least(&self, item_name: &str, required_quantity: u32) -> (b: bool)
        ensures
            b == (self.stock().qty(item_name@) >= required_quantity),
    {
        self.get_item_quantity(item_name) >= required_quantity
    }

    fn has_items_for_recipe(&self, recipe: &ItemMap) -> (b: bool)
        ensures
            b == (forall|k: Seq<char>|
                #![trigger recipe@.dom().contains(k)]
                recipe@.dom().contains(k) ==> self.stock().qty(k) >= recipe@[k]),
    {
        let n = recipe.len();
        let ghost s = recipe.entries();
        proof {
            lemma_entries(s);
        }
        let mut i: usize = 0;
        while i < n
            invariant
                n == s.len(),
                s == recipe.entries(),
                map_of(s) == recipe@,
                distinct_names(s),
                i <= n,
                forall|j: int| 0 <= j < i ==> self.stock().qty(#[trigger] s[j].0@) >= s[j].1,
            decreases n - i,
        {
            let (name, q) = recipe.entry_at(i);
            if !self.has_at_least(name.as_str(), q) {
                proof {
                    lemma_entries(s);
                    assert(recipe@.dom().contains(s[i as int].0@));
                }
                return false;
            }
            i = i + 1;
        }
        proof {
            lemma_entries(s);
            assert forall|k: Seq<char>| #![trigger recipe@.dom().contains(k)]
                recipe@.dom().contains(k) implies self.stock().qty(k) >= recipe@[k] by {
                let j = choose|j: int| 0 <= j < s.len() && s[j].0@ == k;
                assert(self.stock().qty(s[j].0@) >= s[j].1);
            }
        }
        true
    }

    fn get_all_items(&self) -> (m: ItemMap)
        ensures
            m@ == self.stock()@,
    {
        self.items().duplicate()
    }
}

/// Items a building produces, waiting to be picked up.
pub struct OutputPort {
    pub items: ItemMap,
    pub capacity: u32,
}

/// Items a building consumes, with a limit per item.
pub struct InputPort {
    pub items: ItemMap,
    pub capacity: u32,
    pub item_limits: ItemMap,
}

/// General storage, both sending and receiving.
pub struct StoragePort {
    pub items: ItemMap,
    pub capacity: u32,
}

/// Items carried by a worker.
pub struct Cargo {
    pub items: ItemMap,
    pub capacity: u32,
}

impl OutputPort {
    pub fn new(capacity: u32) -> (p: Self)
        ensures
            p.items@ == Map::<Seq<char>, u32>::empty(),
            p.items.total() == 0,
            p.capacity == capacity,
    {
        OutputPort { items: ItemMap::new(), capacity }
    }
}

impl InputPort {
    pub fn new(capacity: u32) -> (p: Self)
        ensures
            p.items@ == Map::<Seq<char>, u32>::empty(),
            p.items.total() == 0,
            p.item_limits@ == Map::<Seq<char>, u32>::empty(),
            p.capacity == capacity,
    {
        InputPort { items: ItemMap::new(), capacity, item_limits: ItemMap::new() }
    }
}

impl StoragePort {
    pub fn new(capacity: u32) -> (p: Self)
        ensures
            p.items@ == Map::<Seq<char>, u32>::empty(),
            p.items.total() == 0,
            p.capacity == capacity,
    {
        StoragePort { items: ItemMap::new(), capacity }
    }
}

impl Cargo {
    pub fn new(capacity: u32) -> (p: Self)
        ensures
            p.items@ == Map::<Seq<char>, u32>::empty(),
            p.items.total() == 0,
            p.capacity == capacity,
    {
        Cargo { items: ItemMap::new(), capacity }
    }
}

impl InventoryAccess for OutputPort {
    open spec fn stock(&self) -> ItemMap {
        self.items
    }

    open spec fn cap(&self) -> u32 {
        self.capacity
    }

    fn items(&self) -> (r: &ItemMap) {
        &self.items
    }

    fn items_mut(&mut self) -> (r: &mut ItemMap) {
        &mut self.items
    }

    fn capacity(&self) -> (c: u32) {
        self.capacity
    }
}

impl InventoryAccess for InputPort {
    open spec fn stock(&self) -> ItemMap {
        self.items
    }

    open spec fn cap(&self) -> u32 {
        self.capacity
    }

    fn items(&self) -> (r: &ItemMap) {
        &self.items
    }

    fn items_mut(&mut self) -> (r: &mut ItemMap) {
        &mut self.items
    }

    fn capacity(&self) -> (c: u32) {
        self.capacity
    }
}

impl InventoryAccess for StoragePort {
    open spec fn stock(&self) -> ItemMap {
        self.items
    }

    open spec fn cap(&self) -> u32 {
        self.capacity
    }

    fn items(&self) -> (r: &ItemMap) {
        &self.items
    }

    fn items_mut(&mut self) -> (r: &mut ItemMap) {
        &mut self.items
    }

    fn capacity(&self) -> (c: u32) {
        self.capacity
    }
}

impl InventoryAccess for Cargo {
    open spec fn stock(&self) -> ItemMap {
        self.items
    }

    open spec fn cap(&self) -> u32 {
        self.capacity
    }

    fn items(&self) -> (r: &ItemMap) {
        &self.items
    }

    fn items_mut(&mut self) -> (r: &mut ItemMap) {
        &mut self.items
    }

    fn capacity(&self) -> (c: u32) {
        self.capacity
    }
}

/// The definition of an item.
pub struct ItemDef {
    pub name: String,
    pub tier: u32,
}

impl Named for ItemDef {
    open spec fn name_view(&self) -> Seq<char> {
        self.name@
    }

    fn name(&self) -> (r: &String) {
        &self.name
    }
}

/// Item definitions by name.
pub type ItemRegistry = Registry<ItemDef>;

/// Why a transfer request was refused.
#[derive(Debug, Clone, Copy, PartialEq, Eq, Structural)]
pub enum TransferError {
    ItemNotFound,
    NotEnoughItems,
    DestinationFull,
}

impl TransferError {
    /// The message shown to the player.
    pub fn message(&self) -> (s: String)
        ensures
            s@ == (match self {
                TransferError::ItemNotFound => "Item not found!"@,
                TransferError::NotEnoughItems => "Not enough items to transfer!"@,
                TransferError::DestinationFull => "Destination storage full!"@,
            }),
    {
        match self {
            TransferError::ItemNotFound => "Item not found!".to_owned(),
            TransferError::NotEnoughItems => "Not enough items to transfer!".to_owned(),
            TransferError::DestinationFull => "Destination storage full!".to_owned(),
        }
    }
}

/// The state of a transfer plan after the first `n` requested entries:
/// the granted quantities, the receiver's running total, and whether the
/// receiver filled up.
pub open spec fn plan_prefix(
    sender: Map<Seq<char>, u32>,
    receiver_total: int,
    receiver_capacity: int,
    request: Seq<(String, u32)>,
    n: int,
) -> (Map<Seq<char>, u32>, int, bool)
    decreases n,
{
    if n <= 0 {
        (Map::empty(), receiver_total, false)
    } else {
        let (granted, total, full) = plan_prefix(
            sender,
            receiver_total,
            receiver_capacity,
            request,
            n - 1,
        );
        let name = request[n - 1].0@;
        let available = qty_in(sender, name);
        let remaining = if receiver_capacity > total {
            receiver_capacity - total
        } else {
            0
        };
        if full || available == 0 {
            (granted, total, full)
        } else if remaining == 0 {
            (granted, total, true)
        } else {
            let amount = min(min(available, request[n - 1].1 as int), remaining);
            if amount > 0 {
                (granted.insert(name, amount as u32), total + amount, false)
            } else {
                (granted, total, false)
            }
        }
    }
}

/// The quantities granted to a request, in the request's order: as much of
/// each item as the sender holds and was asked for, until the receiver is full.
pub open spec fn transfer_plan(
    sender: Map<Seq<char>, u32>,
    receiver_total: int,
    receiver_capacity: int,
    request: Seq<(String, u32)>,
) -> Map<Seq<char>, u32> {
    plan_prefix(sender, receiver_total, receiver_capacity, request, request.len() as int).0
}

/// The room a receiver holding `receiver_total` of `receiver_capacity` has left.
pub open spec fn room_left(receiver_total: int, receiver_capacity: int) -> int {
    if receiver_capacity > receiver_total {
        receiver_capacity - receiver_total
    } else {
        0
    }
}

/// What a sender can offer of a request: for each requested entry, the least
/// of what was asked and what the sender holds, summed.
pub open spec fn offered(sender: Map<Seq<char>, u32>, request: Seq<(String, u32)>) -> int
    decreases request.len(),
{
    if request.len() == 0 {
        0
    } else {
        offered(sender, request.drop_last()) + min(
            qty_in(sender, request.last().0@),
            request.last().1 as int,
        )
    }
}

/// A transfer plan fills the receiver or grants all that is available: after
/// any number of requested entries, the receiver's total has grown by the
/// least of the room it had and what the sender can offer of those entries;
/// nothing is granted exactly when it has not grown; and once the plan has
/// stopped for want of room, the receiver is full.
pub proof fn lemma_plan_total(
    sender: Map<Seq<char>, u32>,
    receiver_total: int,
    receiver_capacity: int,
    request: Seq<(String, u32)>,
    n: int,
)
    requires
        0 <= n <= request.len(),
    ensures
        ({
            let (granted, total, full) = plan_prefix(
                sender,
                receiver_total,
                receiver_capacity,
                request,
                n,
            );
            let room = room_left(receiver_total, receiver_capacity);
            &&& offered(sender, request.take(n)) >= 0
            &&& total - receiver_total == min(room, offered(sender, request.take(n)))
            &&& full ==> total - receiver_total == room
            &&& (granted == Map::<Seq<char>, u32>::empty()) <==> total == receiver_total
        }),
    decreases n,
{
    if n > 0 {
        lemma_plan_total(sender, receiver_total, receiver_capacity, request, n - 1);
        assert(request.take(n).drop_last() =~= request.take(n - 1));
        assert(request.take(n).last() == request[n - 1]);
        let (g, t, f) = plan_prefix(sender, receiver_total, receiver_capacity, request, n - 1);
        let (g2, t2, f2) = plan_prefix(sender, receiver_total, receiver_capacity, request, n);
        let name = request[n - 1].0@;
        if g2.dom().contains(name) && !g.dom().contains(name) {
            assert(g2 != Map::<Seq<char>, u32>::empty());
        }
        if t2 > t {
            assert(g2.dom().contains(name));
            assert(g2 != Map::<Seq<char>, u32>::empty());
        }
    } else {
        assert(request.take(0) =~= Seq::<(String, u32)>::empty());
    }
}

/// No requested item is held by the sender.
pub open spec fn sender_lacks_all(sender: Map<Seq<char>, u32>, request: Map<Seq<char>, u32>) -> bool {
    forall|k: Seq<char>| #![trigger request.dom().contains(k)] request.dom().contains(k) ==> qty_in(sender, k) == 0
}

proof fn lemma_plan_bounds(
    sender: Map<Seq<char>, u32>,
    receiver_total: int,
    receiver_capacity: int,
    request: Seq<(String, u32)>,
    n: int,
)
    requires
        0 <= n <= request.len(),
        distinct_names(request),
        0 <= receiver_total,
    ensures
        ({
            let (granted, total, full) = plan_prefix(
                sender,
                receiver_total,
                receiver_capacity,
                request,
                n,
            );
            &&& total >= receiver_total
            &&& (total > receiver_total ==> total <= receiver_capacity)
            &&& forall|k: Seq<char>|
                #![trigger granted.dom().contains(k)]
                granted.dom().contains(k) ==> granted[k] > 0 && granted[k] <= qty_in(sender, k)
                    && exists|j: int|
                    0 <= j < n && #[trigger] request[j].0@ == k && granted[k] <= request[j].1
        }),
    decreases n,
{
    if n > 0 {
        lemma_plan_bounds(sender, receiver_total, receiver_capacity, request, n - 1);
        let (granted, total, full) = plan_prefix(
            sender,
            receiver_total,
            receiver_capacity,
            request,
            n - 1,
        );
        let (g2, t2, f2) = plan_prefix(sender, receiver_total, receiver_capacity, request, n);
        assert forall|k: Seq<char>| #![trigger g2.dom().contains(k)] g2.dom().contains(k) implies g2[k]
            > 0 && g2[k] <= qty_in(sender, k) && exists|j: int|
            0 <= j < n && #[trigger] request[j].0@ == k && g2[k] <= request[j].1 by {
            if k == request[n - 1].0@ && !granted.dom().contains(k) {
                assert(request[n - 1].0@ == k);
            } else {
                let j = choose|j: int|
                    0 <= j < n - 1 && #[trigger] request[j].0@ == k && granted[k] <= request[j].1;
                if k == request[n - 1].0@ {
                    assert(false);
                }
                assert(request[j].0@ == k);
            }
        }
    }
}

/// Decides how much of a request can move from a sender holding `sender_items`
/// to a receiver holding `receiver_total` items of `receiver_capacity`.
///
/// Requested entries are taken in order; each grants the least of what the
/// sender holds, what was asked, and the room left; an item the sender lacks
/// is skipped, and the first item met with no room left ends the plan. An empty
/// plan is refused: with `NotEnoughItems` when the sender holds none of the
/// requested items, else with `DestinationFull`.
pub fn validate_transfer(
    sender_items: &ItemMap,
    receiver_total: u32,
    receiver_capacity: u32,
    requested: &ItemMap,
) -> (r: Result<ItemMap, TransferError>)
    ensures
        ({
            let plan = transfer_plan(
                sender_items@,
                receiver_total as int,
                receiver_capacity as int,
                requested.entries(),
            );
            match r {
                Ok(granted) => granted@ == plan && plan.dom().len() > 0,
                Err(e) => plan.dom().len() == 0 && e == (if sender_lacks_all(
                    sender_items@,
                    requested@,
                ) {
                    TransferError::NotEnoughItems
                } else {
                    TransferError::DestinationFull
                }),
            }
        }),
        ({
            let offer = min(
                room_left(receiver_total as int, receiver_capacity as int),
                offered(sender_items@, requested.entries()),
            );
            &&& r is Ok <==> offer > 0
            &&& r matches Ok(granted) ==> granted.total() == offer
        }),
        r is Ok ==> ({
            let granted = r->Ok_0;
            &&& receiver_total + granted.total() <= if receiver_capacity > receiver_total {
                receiver_capacity as int
            } else {
                receiver_total as int
            }
            &&& forall|k: Seq<char>|
                #![trigger granted@.dom().contains(k)]
                granted@.dom().contains(k) ==> 0 < granted@[k] <= qty_in(sender_items@, k)
                    && requested@.dom().contains(k) && granted@[k] <= requested@[k]
        }),
{
    let n = requested.len();
    let ghost req = requested.entries();
    proof {
        lemma_entries(req);
    }
    let mut granted = ItemMap::new();
    let mut current: u32 = receiver_total;
    let mut i: usize = 0;
    while i < n
        invariant_except_break
            ({
                let (g, t, f) = plan_prefix(
                    sender_items@,
                    receiver_total as int,
                    receiver_capacity as int,
                    req,
                    i as int,
                );
                &&& granted@ == g && current == t && !f
            }),
        invariant
            n == req.len(),
            req == requested.entries(),
            distinct_names(req),
            i <= n,
            granted.total() + receiver_total == current,
            current >= receiver_total,
            current > receiver_total ==> current <= receiver_capacity,
            forall|k: Seq<char>|
                #![trigger granted@.dom().contains(k)]
                granted@.dom().contains(k) ==> exists|j: int|
                    0 <= j < i && #[trigger] req[j].0@ == k,
        ensures
            granted@ == transfer_plan(
                sender_items@,
                receiver_total as int,
                receiver_capacity as int,
                req,
            ),
            granted.total() + receiver_total == current,
            current == plan_prefix(
                sender_items@,
                receiver_total as int,
                receiver_capacity as int,
                req,
                req.len() as int,
            ).1,
        decreases n - i,
    {
        let (name, requested_quantity) = requested.entry_at(i);
        let available = sender_items.quantity(name.as_str());
        let remaining = if receiver_capacity > current {
            receiver_capacity - current
        } else {
            0
        };
        if available != 0 {
            if remaining == 0 {
                proof {
                    lemma_plan_full_stays(
                        sender_items@,
                        receiver_total as int,
                        receiver_capacity as int,
                        req,
                        i as int + 1,
                    );
                }
                break;
            }
            let transfer_quantity = if available < requested_quantity {
                available
            } else {
                requested_quantity
            };
            let final_quantity = if transfer_quantity < remaining {
                transfer_quantity
            } else {
                remaining
            };
            if final_quantity > 0 {
                proof {
                    assert(!granted@.dom().contains(name@)) by {
                        if granted@.dom().contains(name@) {
                            let j = choose|j: int| 0 <= j < i && #[trigger] req[j].0@ == name@;
                            assert(req[j].0@ == req[i as int].0@);
                        }
                    }
                }
                granted.insert(name.clone(), final_quantity);
                current = current + final_quantity;
            }
        }
        i = i + 1;
        proof {
            assert forall|k: Seq<char>| #![trigger granted@.dom().contains(k)]
                granted@.dom().contains(k) implies exists|j: int|
                0 <= j < i && #[trigger] req[j].0@ == k by {
                if k == req[i - 1].0@ {
                    assert(req[i - 1].0@ == k);
                } else {
                    let j = choose|j: int| 0 <= j < i - 1 && #[trigger] req[j].0@ == k;
                    assert(req[j].0@ == k);
                }
            }
        }
    }
    proof {
        lemma_plan_total(
            sender_items@,
            receiver_total as int,
            receiver_capacity as int,
            req,
            req.len() as int,
        );
        assert(req.take(req.len() as int) =~= req);
        lemma_plan_bounds(
            sender_items@,
            receiver_total as int,
            receiver_capacity as int,
            req,
            req.len() as int,
        );
        assert forall|k: Seq<char>| #![trigger granted@.dom().contains(k)]
            granted@.dom().contains(k) implies 0 < granted@[k] <= qty_in(sender_items@, k)
            && requested@.dom().contains(k) && granted@[k] <= requested@[k] by {
            let j = choose|j: int|
                0 <= j < req.len() && #[trigger] req[j].0@ == k && granted@[k] <= req[j].1;
            assert(requested@.dom().contains(req[j].0@));
        }
    }
    if granted.is_empty() {
        let all_lacking = sender_lacks_every(sender_items, requested);
        if all_lacking {
            Err(TransferError::NotEnoughItems)
        } else {
            Err(TransferError::DestinationFull)
        }
    } else {
        Ok(granted)
    }
}

proof fn lemma_plan_full_stays(
    sender: Map<Seq<char>, u32>,
    receiver_total: int,
    receiver_capacity: int,
    request: Seq<(String, u32)>,
    n: int,
)
    requires
        0 < n,
        plan_prefix(sender, receiver_total, receiver_capacity, request, n).2,
    ensures
        forall|m: int|
            n <= m <= request.len() ==> #[trigger] plan_prefix(
                sender,
                receiver_total,
                receiver_capacity,
                request,
                m,
            ) == plan_prefix(sender, receiver_total, receiver_capacity, request, n),
{
    assert forall|m: int| n <= m <= request.len() implies #[trigger] plan_prefix(
        sender,
        receiver_total,
        receiver_capacity,
        request,
        m,
    ) == plan_prefix(sender, receiver_total, receiver_capacity, request, n) by {
        lemma_plan_full_stays_at(sender, receiver_total, receiver_capacity, request, n, m);
    }
}

proof fn lemma_plan_full_stays_at(
    sender: Map<Seq<char>, u32>,
    receiver_total: int,
    receiver_capacity: int,
    request: Seq<(String, u32)>,
    n: int,
    m: int,
)
    requires
        0 < n <= m,
        plan_prefix(sender, receiver_total, receiver_capacity, request, n).2,
    ensures
        plan_prefix(sender, receiver_total, receiver_capacity, request, m) == plan_prefix(
            sender,
            receiver_total,
            receiver_capacity,
            request,
            n,
        ),
    decreases m - n,
{
    if m > n {
        lemma_plan_full_stays_at(sender, receiver_total, receiver_capacity, request, n, m - 1);
    }
}

/// Whether the sender holds none of the requested items.
fn sender_lacks_every(sender_items: &ItemMap, requested: &ItemMap) -> (b: bool)
    ensures
        b == sender_lacks_all(sender_items@, requested@),
{
    let n = requested.len();
    let ghost req = requested.entries();
    proof {
        lemma_entries(req);
    }
    let mut i: usize = 0;
    while i < n
        invariant
            n == req.len(),
            req == requested.entries(),
            distinct_names(req),
            map_of(req) == requested@,
            i <= n,
            forall|j: int| 0 <= j < i ==> qty_in(sender_items@, #[trigger] req[j].0@) == 0,
        decreases n - i,
    {
        let (name, _) = requested.entry_at(i);
        if sender_items.quantity(name.as_str()) != 0 {
            proof {
                lemma_entries(req);
                assert(requested@.dom().contains(req[i as int].0@));
            }
            return false;
        }
        i = i + 1;
    }
    proof {
        lemma_entries(req);
        assert forall|k: Seq<char>| #![trigger requested@.dom().contains(k)]
            requested@.dom().contains(k) implies qty_in(sender_items@, k) == 0 by {
            let j = choose|j: int| 0 <= j < req.len() && req[j].0@ == k;
            assert(qty_in(sender_items@, req[j].0@) == 0);
        }
    }
    true
}

/// Moves the granted quantities from `sender` to `receiver` and returns what
/// actually moved: for each granted item, the least of the grant and what the
/// sender holds, leaving out what came to nothing. Nothing is added when
/// nothing moved.
pub fn execute_transfer<S: InventoryAccess, R: InventoryAccess>(
    sender: &mut S,
    receiver: &mut R,
    granted: &ItemMap,
) -> (moved: ItemMap)
    requires
        forall|k: Seq<char>|
            #![trigger granted@.dom().contains(k)]
            granted@.dom().contains(k) ==> old(receiver).stock().qty(k) + min(
                old(sender).stock().qty(k),
                granted@[k] as int,
            ) <= u32::MAX,
    ensures
        moved@ == yield_of(old(sender).stock()@, granted@),
        final(sender).stock()@ == remove_all(old(sender).stock()@, granted@),
        final(receiver).stock()@ == add_all(old(receiver).stock()@, moved@),
        final(sender).stock().total() == old(sender).stock().total() - moved.total(),
        final(receiver).stock().total() == old(receiver).stock().total() + moved.total(),
        final(sender).cap() == old(sender).cap(),
        final(receiver).cap() == old(receiver).cap(),
{
    let n = granted.len();
    let ghost g = granted.entries();
    let ghost s0 = sender.stock()@;
    let ghost r0 = receiver.stock()@;
    let ghost sender_total0 = sender.stock().total();
    proof {
        lemma_entries(g);
        assert(remove_all(s0, map_of(g.take(0))) =~= s0);
        assert(yield_of(s0, map_of(g.take(0))) =~= Map::<Seq<char>, u32>::empty());
    }
    let mut moved = ItemMap::new();
    let mut i: usize = 0;
    while i < n
        invariant
            n == g.len(),
            g == granted.entries(),
            distinct_names(g),
            map_of(g) == granted@,
            i <= n,
            sender.stock()@ == remove_all(s0, map_of(g.take(i as int))),
            moved@ == yield_of(s0, map_of(g.take(i as int))),
            sender.stock().total() == sender_total0 - moved.total(),
            receiver.stock()@ == r0,
            receiver.stock() == old(receiver).stock(),
            sender.cap() == old(sender).cap(),
            receiver.cap() == old(receiver).cap(),
        decreases n - i,
    {
        let (name, quantity) = granted.entry_at(i);
        let ghost prefix = map_of(g.take(i as int));
        proof {
            lemma_prefix_lacks_next(g, i as int);
            assert(g.take(i + 1).drop_last() =~= g.take(i as int));
        }
        let removed = sender.remove_item(name.as_str(), quantity);
        proof {
            lemma_remove_all_step(s0, prefix, name@, quantity);
        }
        if removed > 0 {
            moved.insert(name.clone(), removed);
        }
        proof {
            lemma_yield_step(s0, prefix, name@, quantity);
            assert(moved@ =~= yield_of(s0, map_of(g.take(i + 1))));
        }
        i = i + 1;
    }
    proof {
        assert(g.take(n as int) =~= g);
    }
    if !moved.is_empty() {
        let m = moved.len();
        let ghost mv = moved.entries();
        proof {
            lemma_entries(mv);
            assert(add_all(r0, map_of(mv.take(0))) =~= r0);
        }
        let mut j: usize = 0;
        while j < m
            invariant
                m == mv.len(),
                mv == moved.entries(),
                distinct_names(mv),
                map_of(mv) == moved@,
                moved@ == yield_of(s0, granted@),
                j <= m,
                receiver.stock()@ == add_all(r0, map_of(mv.take(j as int))),
                receiver.stock().total() == old(receiver).stock().total() + sum_of(
                    mv.take(j as int),
                ),
                receiver.cap() == old(receiver).cap(),
                forall|k: Seq<char>|
                    #![trigger moved@.dom().contains(k)]
                    moved@.dom().contains(k) ==> qty_in(r0, k) + moved@[k] <= u32::MAX,
            decreases m - j,
        {
            let (name, quantity) = moved.entry_at(j);
            proof {
                lemma_entries(mv);
                lemma_prefix_lacks_next(mv, j as int);
                assert(mv.take(j + 1).drop_last() =~= mv.take(j as int));
                assert(moved@.dom().contains(mv[j as int].0@));
                assert(granted@.dom().contains(name@));
                assert(moved@[name@] == quantity);
            }
            receiver.add_item(name.as_str(), quantity);
            proof {
                assert(receiver.stock()@ =~= add_all(r0, map_of(mv.take(j + 1))));
            }
            j = j + 1;
        }
        proof {
            assert(mv.take(m as int) =~= mv);
        }
    } else {
        proof {
            assert(moved@ =~= Map::<Seq<char>, u32>::empty());
            assert(add_all(r0, moved@) =~= r0);
        }
    }
    moved
}

proof fn lemma_remove_all_step(
    held: Map<Seq<char>, u32>,
    taken: Map<Seq<char>, u32>,
    k: Seq<char>,
    q: u32,
)
    requires
        !taken.dom().contains(k),
    ensures
        remove_all(held, taken.insert(k, q)) == after_removal(remove_all(held, taken), k, q),
{
    assert(remove_all(held, taken.insert(k, q)) =~= after_removal(remove_all(held, taken), k, q));
}

proof fn lemma_yield_step(
    held: Map<Seq<char>, u32>,
    taken: Map<Seq<char>, u32>,
    k: Seq<char>,
    q: u32,
)
    requires
        !taken.dom().contains(k),
    ensures
        ({
            let removed = min(qty_in(held, k), q as int);
            yield_of(held, taken.insert(k, q)) == if removed > 0 {
                yield_of(held, taken).insert(k, removed as u32)
            } else {
                yield_of(held, taken)
            }
        }),
{
    let removed = min(qty_in(held, k), q as int);
    if removed > 0 {
        assert(yield_of(held, taken.insert(k, q)) =~= yield_of(held, taken).insert(
            k,
            removed as u32,
        ));
    } else {
        assert(yield_of(held, taken.insert(k, q)) =~= yield_of(held, taken));
    }
}

/// Adding a quantity of an item and then removing the same quantity gives
/// back the inventory, unless the item was held with a quantity of zero (the
/// removal then drops the entry).
pub proof fn lemma_add_then_remove_restores(m: Map<Seq<char>, u32>, k: Seq<char>, q: u32)
    requires
        qty_in(m, k) + q <= u32::MAX,
        m.dom().contains(k) ==> m[k] > 0,
    ensures
        after_removal(m.insert(k, (qty_in(m, k) + q) as u32), k, q) == m,
{
    let added = m.insert(k, (qty_in(m, k) + q) as u32);
    if m.dom().contains(k) {
        assert(added.insert(k, (added[k] - q) as u32) =~= m);
    } else {
        assert(added.remove(k) =~= m);
    }
}

/// A transfer neither creates nor destroys items: of every item, the sender
/// and the receiver hold as much together afterwards as before.
pub proof fn lemma_transfer_conserves_each_item(
    sender: Map<Seq<char>, u32>,
    receiver: Map<Seq<char>, u32>,
    granted: Map<Seq<char>, u32>,
    k: Seq<char>,
)
    requires
        qty_in(receiver, k) + qty_in(yield_of(sender, granted), k) <= u32::MAX,
    ensures
        qty_in(remove_all(sender, granted), k) + qty_in(add_all(receiver, yield_of(sender, granted)), k)
            == qty_in(sender, k) + qty_in(receiver, k),
{
}

/// A transfer that was validated moves exactly what was granted: the sender
/// holds every granted quantity, so nothing is cut short.
pub proof fn lemma_validated_transfer_moves_what_was_granted(
    held: Map<Seq<char>, u32>,
    granted: Map<Seq<char>, u32>,
)
    requires
        forall|k: Seq<char>|
            #![trigger granted.dom().contains(k)]
            granted.dom().contains(k) ==> 0 < granted[k] <= qty_in(held, k),
    ensures
        yield_of(held, granted) == granted,
{
    assert(yield_of(held, granted) =~= granted);
}

} // verus!
