//! Construction sites pull their missing materials from storages on the network.
use vstd::prelude::*;
use crate::grid::Position;
use crate::item_map::{ItemMap, distinct_names, map_of, lemma_entries, lemma_prefix_lacks_next};
use crate::materials::items::{qty_in, remove_all, InputPort, InventoryAccess, StoragePort};
use crate::structures::production::consume_inputs;
use crate::systems::network::NetworkConnectivity;
use vstd::math::min;

verus! {

/// What is still missing of `needed` given what is `held`: the shortfall of
/// every item held in a smaller quantity than needed.
pub open spec fn deficit_of(needed: Map<Seq<char>, u32>, held: Map<Seq<char>, u32>) -> Map<
    Seq<char>,
    u32,
> {
    Map::new(
        |k: Seq<char>| needed.dom().contains(k) && qty_in(held, k) < needed[k],
        |k: Seq<char>| (needed[k] - qty_in(held, k)) as u32,
    )
}

/// The deficit of a construction: what `current` lacks of `needed`.
pub fn compute_deficit(needed: &ItemMap, current: &InputPort) -> (deficit: ItemMap)
    ensures
        deficit@ == deficit_of(needed@, current.items@),
{
    let mut deficit = ItemMap::new();
    let n = needed.len();
    let ghost s = needed.entries();
    proof {
        lemma_entries(s);
        assert(deficit@ =~= deficit_of(map_of(s.take(0)), current.items@));
    }
    let mut i: usize = 0;
    while i < n
        invariant
            n == s.len(),
            s == needed.entries(),
            distinct_names(s),
            map_of(s) == needed@,
            i <= n,
            deficit@ == deficit_of(map_of(s.take(i as int)), current.items@),
        decreases n - i,
    {
        let (name, required) = needed.entry_at(i);
        proof {
            lemma_entries(s);
            lemma_prefix_lacks_next(s, i as int);
            assert(s.take(i + 1).drop_last() =~= s.take(i as int));
        }
        let on_hand = current.get_item_quantity(name.as_str());
        if on_hand < required {
            deficit.insert(name.clone(), required - on_hand);
        }
        proof {
            assert(deficit@ =~= deficit_of(map_of(s.take(i + 1)), current.items@));
        }
        i = i + 1;
    }
    proof {
        assert(s.take(n as int) =~= s);
    }
    deficit
}

/// What one storage is asked for: of every missing item it holds, as much as
/// is missing or as much as it holds, whichever is less.
pub open spec fn pull_request(remaining: Map<Seq<char>, u32>, stored: Map<Seq<char>, u32>) -> Map<
    Seq<char>,
    u32,
> {
    Map::new(
        |k: Seq<char>| remaining.dom().contains(k) && qty_in(stored, k) > 0,
        |k: Seq<char>| min(remaining[k] as int, qty_in(stored, k)) as u32,
    )
}

/// The requests made of the storages from the `i`-th on while `remaining` is
/// missing: a storage off the network, or one that holds none of it, is
/// passed over; the asking stops once nothing is missing.
pub open spec fn pull_plan(
    remaining: Map<Seq<char>, u32>,
    storages: Seq<(Map<Seq<char>, u32>, bool)>,
    i: int,
) -> Seq<(int, Map<Seq<char>, u32>)>
    decreases storages.len() - i,
{
    if i < 0 || i >= storages.len() || remaining == Map::<Seq<char>, u32>::empty() {
        Seq::empty()
    } else if !storages[i].1 {
        pull_plan(remaining, storages, i + 1)
    } else {
        let req = pull_request(remaining, storages[i].0);
        if req == Map::<Seq<char>, u32>::empty() {
            pull_plan(remaining, storages, i + 1)
        } else {
            seq![(i, req)] + pull_plan(remove_all(remaining, req), storages, i + 1)
        }
    }
}

/// The storages as the plan sees them: what each holds and whether it is on
/// the connected network.
pub open spec fn storage_views(
    storages: Seq<(&StoragePort, Position)>,
    network: NetworkConnectivity,
) -> Seq<(Map<Seq<char>, u32>, bool)> {
    storages.map_values(
        |e: (&StoragePort, Position)|
            (e.0.items@, network.connected_view().contains((e.1.x as int, e.1.y as int))),
    )
}

/// The requests of a construction site: none when nothing is missing or the
/// site is off the network, else the plan over the storages.
pub open spec fn site_plan(
    cost: Map<Seq<char>, u32>,
    site_items: Map<Seq<char>, u32>,
    site: Position,
    storages: Seq<(&StoragePort, Position)>,
    network: NetworkConnectivity,
) -> Seq<(int, Map<Seq<char>, u32>)> {
    let deficit = deficit_of(cost, site_items);
    if deficit == Map::<Seq<char>, u32>::empty() || !network.connected_view().contains(
        (site.x as int, site.y as int),
    ) {
        Seq::empty()
    } else {
        pull_plan(deficit, storage_views(storages, network), 0)
    }
}

/// The request made of one storage.
fn request_from(remaining: &ItemMap, storage: &StoragePort) -> (req: ItemMap)
    ensures
        req@ == pull_request(remaining@, storage.items@),
{
    let mut req = ItemMap::new();
    let n = remaining.len();
    let ghost s = remaining.entries();
    proof {
        lemma_entries(s);
        assert(req@ =~= pull_request(map_of(s.take(0)), storage.items@));
    }
    let mut j: usize = 0;
    while j < n
        invariant
            n == s.len(),
            s == remaining.entries(),
            distinct_names(s),
            map_of(s) == remaining@,
            j <= n,
            req@ == pull_request(map_of(s.take(j as int)), storage.items@),
        decreases n - j,
    {
        let (name, missing) = remaining.entry_at(j);
        proof {
            lemma_entries(s);
            lemma_prefix_lacks_next(s, j as int);
            assert(s.take(j + 1).drop_last() =~= s.take(j as int));
        }
        let available = storage.get_item_quantity(name.as_str());
        if available > 0 {
            let amount = if missing < available {
                missing
            } else {
                available
            };
            req.insert(name.clone(), amount);
        }
        proof {
            assert(req@ =~= pull_request(map_of(s.take(j + 1)), storage.items@));
        }
        j = j + 1;
    }
    proof {
        assert(s.take(n as int) =~= s);
    }
    req
}

/// The transfers a construction site asks for: for each storage on the
/// network, in order, the missing items it holds, until nothing is missing.
/// Each request names the storage by its position in `storages`.
pub fn plan_auto_pull(
    cost: &ItemMap,
    site_input: &InputPort,
    site: Position,
    storages: &Vec<(&StoragePort, Position)>,
    network: &NetworkConnectivity,
) -> (requests: Vec<(usize, ItemMap)>)
    ensures
        requests@.len() == site_plan(cost@, site_input.items@, site, storages@, *network).len(),
        forall|r: int|
            #![trigger requests@[r]]
            0 <= r < requests@.len() ==> requests@[r].0 == site_plan(
                cost@,
                site_input.items@,
                site,
                storages@,
                *network,
            )[r].0 && requests@[r].1@ == site_plan(
                cost@,
                site_input.items@,
                site,
                storages@,
                *network,
            )[r].1,
{
    let mut requests: Vec<(usize, ItemMap)> = Vec::new();
    let mut remaining = compute_deficit(cost, site_input);
    if remaining.is_empty() || !network.is_cell_connected(site.x, site.y) {
        return requests;
    }
    let ghost views = storage_views(storages@, *network);
    let ghost plan = pull_plan(remaining@, views, 0);
    let mut i: usize = 0;
    while i < storages.len()
        invariant
            i <= storages@.len(),
            views == storage_views(storages@, *network),
            views.len() == storages@.len(),
            requests@.len() + pull_plan(remaining@, views, i as int).len() == plan.len(),
            forall|r: int|
                #![trigger requests@[r]]
                0 <= r < requests@.len() ==> requests@[r].0 == plan[r].0 && requests@[r].1@
                    == plan[r].1,
            forall|r: int|
                0 <= r < pull_plan(remaining@, views, i as int).len() ==> plan[requests@.len() + r]
                    == #[trigger] pull_plan(remaining@, views, i as int)[r],
        ensures
            pull_plan(remaining@, views, i as int).len() == 0,
        decreases storages@.len() - i,
    {
        if remaining.is_empty() {
            break;
        }
        let (storage, pos) = storages[i];
        proof {
            assert(views[i as int] == (storage.items@, network.connected_view().contains(
                (pos.x as int, pos.y as int),
            )));
        }
        if network.is_cell_connected(pos.x, pos.y) {
            let req = request_from(&remaining, storage);
            if !req.is_empty() {
                proof {
                    assert forall|k: Seq<char>| #![trigger req@.dom().contains(k)]
                        req@.dom().contains(k) implies remaining.qty(k) >= req@[k] by {}
                    let tail = pull_plan(remove_all(remaining@, req@), views, i + 1);
                    assert(pull_plan(remaining@, views, i as int) == seq![(i as int, req@)] + tail);
                    assert(plan[requests@.len() as int] == pull_plan(remaining@, views, i as int)[0]);
                    assert forall|r: int| 0 <= r < tail.len() implies plan[requests@.len() + 1 + r]
                        == #[trigger] tail[r] by {
                        assert(pull_plan(remaining@, views, i as int)[r + 1] == tail[r]);
                    }
                }
                consume_inputs(&mut remaining, &req);
                requests.push((i, req));
            }
        }
        i = i + 1;
    }
    requests
}

/// How much of `k` a list of requests asks for in all.
pub open spec fn requested(plan: Seq<(int, Map<Seq<char>, u32>)>, k: Seq<char>) -> int
    decreases plan.len(),
{
    if plan.len() == 0 {
        0
    } else {
        qty_in(plan[0].1, k) + requested(plan.subrange(1, plan.len() as int), k)
    }
}

/// How much of `k` the storages from the `i`-th on hold together, counting
/// only those on the network.
pub open spec fn available(storages: Seq<(Map<Seq<char>, u32>, bool)>, i: int, k: Seq<char>) -> int
    decreases storages.len() - i,
{
    if i < 0 || i >= storages.len() {
        0
    } else {
        (if storages[i].1 {
            qty_in(storages[i].0, k)
        } else {
            0
        }) + available(storages, i + 1, k)
    }
}

/// Every quantity of the map is positive.
pub open spec fn all_positive(m: Map<Seq<char>, u32>) -> bool {
    forall|k: Seq<char>| #![trigger m.dom().contains(k)] m.dom().contains(k) ==> m[k] > 0
}

proof fn lemma_available_nonneg(storages: Seq<(Map<Seq<char>, u32>, bool)>, i: int, k: Seq<char>)
    ensures
        available(storages, i, k) >= 0,
    decreases storages.len() - i,
{
    if 0 <= i < storages.len() {
        lemma_available_nonneg(storages, i + 1, k);
    }
}

/// The pull of a construction site takes of every missing item exactly as
/// much as is missing or as much as the storages on the network hold
/// together, whichever is less.
pub proof fn lemma_pull_takes_what_is_missing_or_available(
    remaining: Map<Seq<char>, u32>,
    storages: Seq<(Map<Seq<char>, u32>, bool)>,
    i: int,
    k: Seq<char>,
)
    requires
        0 <= i,
        all_positive(remaining),
    ensures
        requested(pull_plan(remaining, storages, i), k) == min(
            qty_in(remaining, k),
            available(storages, i, k),
        ),
    decreases storages.len() - i,
{
    lemma_available_nonneg(storages, i, k);
    if i >= storages.len() {
    } else if remaining == Map::<Seq<char>, u32>::empty() {
        assert(!remaining.dom().contains(k));
    } else if !storages[i].1 {
        lemma_pull_takes_what_is_missing_or_available(remaining, storages, i + 1, k);
    } else {
        let req = pull_request(remaining, storages[i].0);
        lemma_available_nonneg(storages, i + 1, k);
        if req == Map::<Seq<char>, u32>::empty() {
            lemma_pull_takes_what_is_missing_or_available(remaining, storages, i + 1, k);
            if remaining.dom().contains(k) {
                assert(!req.dom().contains(k));
            }
        } else {
            let rest = remove_all(remaining, req);
            assert(all_positive(rest));
            lemma_pull_takes_what_is_missing_or_available(rest, storages, i + 1, k);
            let plan = pull_plan(remaining, storages, i);
            let tail = pull_plan(rest, storages, i + 1);
            assert(plan == seq![(i, req)] + tail);
            assert(plan.subrange(1, plan.len() as int) =~= tail);
            assert(plan[0].1 == req);
        }
    }
}

/// Each request of a pull names a storage on the network and asks it for
/// items it holds, each at most what it holds and at most what was missing.
pub proof fn lemma_pull_requests_within_bounds(
    remaining: Map<Seq<char>, u32>,
    storages: Seq<(Map<Seq<char>, u32>, bool)>,
    i: int,
)
    requires
        0 <= i,
        all_positive(remaining),
    ensures
        forall|r: int, k: Seq<char>|
            #![trigger pull_plan(remaining, storages, i)[r].1.dom().contains(k)]
            0 <= r < pull_plan(remaining, storages, i).len() && pull_plan(
                remaining,
                storages,
                i,
            )[r].1.dom().contains(k) ==> {
                let e = pull_plan(remaining, storages, i)[r];
                &&& i <= e.0 < storages.len()
                &&& storages[e.0].1
                &&& 0 < e.1[k] <= qty_in(storages[e.0].0, k)
                &&& e.1[k] <= qty_in(remaining, k)
            },
    decreases storages.len() - i,
{
    if i >= storages.len() || remaining == Map::<Seq<char>, u32>::empty() {
    } else if !storages[i].1 {
        lemma_pull_requests_within_bounds(remaining, storages, i + 1);
        assert(pull_plan(remaining, storages, i) == pull_plan(remaining, storages, i + 1));
    } else {
        let req = pull_request(remaining, storages[i].0);
        if req == Map::<Seq<char>, u32>::empty() {
            lemma_pull_requests_within_bounds(remaining, storages, i + 1);
            assert(pull_plan(remaining, storages, i) == pull_plan(remaining, storages, i + 1));
        } else {
            let rest = remove_all(remaining, req);
            assert(all_positive(rest));
            lemma_pull_requests_within_bounds(rest, storages, i + 1);
            let plan = pull_plan(remaining, storages, i);
            let tail = pull_plan(rest, storages, i + 1);
            assert(plan == seq![(i, req)] + tail);
            assert forall|r: int, k: Seq<char>|
                #![trigger plan[r].1.dom().contains(k)]
                0 <= r < plan.len() && plan[r].1.dom().contains(k) implies {
                    let e = plan[r];
                    &&& i <= e.0 < storages.len()
                    &&& storages[e.0].1
                    &&& 0 < e.1[k] <= qty_in(storages[e.0].0, k)
                    &&& e.1[k] <= qty_in(remaining, k)
                } by {
                if r > 0 {
                    assert(plan[r] == tail[r - 1]);
                    assert(tail[r - 1].1.dom().contains(k));
                    assert(qty_in(rest, k) <= qty_in(remaining, k));
                }
            }
        }
    }
}

/// What a construction site asks of the storages, item by item: when the site
/// is on the network, the requests together ask for each item exactly as much
/// as is missing or as much as the storages on the network hold together,
/// whichever is less; off the network it asks for nothing.
pub proof fn lemma_site_pull_law(
    cost: Map<Seq<char>, u32>,
    site_items: Map<Seq<char>, u32>,
    site: Position,
    storages: Seq<(&StoragePort, Position)>,
    network: NetworkConnectivity,
    k: Seq<char>,
)
    ensures
        network.connected_view().contains((site.x as int, site.y as int)) ==> requested(
            site_plan(cost, site_items, site, storages, network),
            k,
        ) == min(
            qty_in(deficit_of(cost, site_items), k),
            available(storage_views(storages, network), 0, k),
        ),
        !network.connected_view().contains((site.x as int, site.y as int)) ==> site_plan(
            cost,
            site_items,
            site,
            storages,
            network,
        ).len() == 0,
{
    let deficit = deficit_of(cost, site_items);
    let views = storage_views(storages, network);
    lemma_available_nonneg(views, 0, k);
    if deficit == Map::<Seq<char>, u32>::empty() {
        assert(!deficit.dom().contains(k));
        assert(site_plan(cost, site_items, site, storages, network) =~= Seq::<
            (int, Map<Seq<char>, u32>),
        >::empty());
    } else {
        assert(all_positive(deficit));
        lemma_pull_takes_what_is_missing_or_available(deficit, views, 0, k);
    }
}

} // verus!
