//! The building network: the cells connected to the hub through chains of
//! network buildings, and the buildings that touch them.
use vstd::prelude::*;
use crate::constants::BUILDING_LAYER;
use crate::grid::{adjacent, cell_of, half, inner, CellSet, Position};
use crate::structures::construction::MultiCellBuilding;

verus! {

/// A building or construction site as the network sees it.
#[derive(Clone, Copy, Debug, PartialEq, Eq, Structural)]
pub struct NetworkNode {
    pub position: Position,
    pub layer: i32,
    /// Whether it carries a network component.
    pub network: bool,
}

/// The cell of a position.
pub open spec fn pos_cell(p: Position) -> (int, int) {
    (p.x as int, p.y as int)
}

/// A cell the hub seeds the network with: rows `dy` in `-width/2..=width/2`
/// and columns `dx` in `-width/2..=height/2` around its center.
pub open spec fn hub_cell(h: MultiCellBuilding, c: (int, int)) -> bool {
    let hw = half(h.width);
    let hh = half(h.height);
    -hw <= c.1 - h.center_y <= hw && -hw <= c.0 - h.center_x <= hh
}

pub open spec fn is_hub_cell(hubs: Seq<MultiCellBuilding>, c: (int, int)) -> bool {
    exists|i: int| 0 <= i < hubs.len() && #[trigger] hub_cell(hubs[i], c)
}

/// A cell holding a network building.
pub open spec fn is_network_cell(nodes: Seq<NetworkNode>, c: (int, int)) -> bool {
    exists|i: int|
        0 <= i < nodes.len() && nodes[i].layer == BUILDING_LAYER && nodes[i].network && pos_cell(
            #[trigger] nodes[i].position,
        ) == c
}

/// A cell holding a building.
pub open spec fn is_building_cell(nodes: Seq<NetworkNode>, c: (int, int)) -> bool {
    exists|i: int|
        0 <= i < nodes.len() && nodes[i].layer == BUILDING_LAYER && pos_cell(
            #[trigger] nodes[i].position,
        ) == c
}

/// A walk from a hub cell through adjacent network buildings.
pub open spec fn is_network_path(
    hubs: Seq<MultiCellBuilding>,
    nodes: Seq<NetworkNode>,
    p: Seq<(int, int)>,
) -> bool {
    &&& p.len() > 0
    &&& is_hub_cell(hubs, p[0])
    &&& forall|i: int|
        1 <= i < p.len() ==> adjacent(p[i - 1], #[trigger] p[i]) && is_network_cell(nodes, p[i])
}

/// The core network: cells reached from the hub through network buildings.
pub open spec fn in_core(hubs: Seq<MultiCellBuilding>, nodes: Seq<NetworkNode>, c: (int, int)) -> bool {
    exists|p: Seq<(int, int)>| #[trigger] is_network_path(hubs, nodes, p) && p.last() == c
}

/// One of the four neighbours of `c` is in the core network.
pub open spec fn touches_core(
    hubs: Seq<MultiCellBuilding>,
    nodes: Seq<NetworkNode>,
    c: (int, int),
) -> bool {
    ||| in_core(hubs, nodes, (c.0, c.1 + 1))
    ||| in_core(hubs, nodes, (c.0, c.1 - 1))
    ||| in_core(hubs, nodes, (c.0 + 1, c.1))
    ||| in_core(hubs, nodes, (c.0 - 1, c.1))
}

/// The connected network: the core, and every building next to it.
pub open spec fn in_connected(
    hubs: Seq<MultiCellBuilding>,
    nodes: Seq<NetworkNode>,
    c: (int, int),
) -> bool {
    in_core(hubs, nodes, c) || (is_building_cell(nodes, c) && touches_core(hubs, nodes, c))
}

/// Every hub cell and every building has representable neighbours.
pub open spec fn fits_grid(hubs: Seq<MultiCellBuilding>, nodes: Seq<NetworkNode>) -> bool {
    &&& forall|i: int, c: (int, int)|
        0 <= i < hubs.len() && #[trigger] hub_cell(hubs[i], c) ==> inner(c.0) && inner(c.1)
    &&& forall|i: int|
        0 <= i < nodes.len() && nodes[i].layer == BUILDING_LAYER ==> inner(
            (#[trigger] nodes[i].position).x as int,
        ) && inner(nodes[i].position.y as int)
}

/// The four neighbours of `c` that hold network buildings are in `s`.
pub open spec fn neighbours_closed(s: Set<(int, int)>, nodes: Seq<NetworkNode>, c: (int, int)) -> bool {
    &&& is_network_cell(nodes, (c.0 + 1, c.1)) ==> s.contains((c.0 + 1, c.1))
    &&& is_network_cell(nodes, (c.0 - 1, c.1)) ==> s.contains((c.0 - 1, c.1))
    &&& is_network_cell(nodes, (c.0, c.1 + 1)) ==> s.contains((c.0, c.1 + 1))
    &&& is_network_cell(nodes, (c.0, c.1 - 1)) ==> s.contains((c.0, c.1 - 1))
}

/// A hub cell is in the core network.
proof fn lemma_hub_in_core(hubs: Seq<MultiCellBuilding>, nodes: Seq<NetworkNode>, c: (int, int))
    requires
        is_hub_cell(hubs, c),
    ensures
        in_core(hubs, nodes, c),
{
    let p = seq![c];
    assert(is_network_path(hubs, nodes, p));
}

/// The core network extends to an adjacent network building.
proof fn lemma_extend_core(
    hubs: Seq<MultiCellBuilding>,
    nodes: Seq<NetworkNode>,
    c: (int, int),
    a: (int, int),
)
    requires
        in_core(hubs, nodes, c),
        adjacent(c, a),
        is_network_cell(nodes, a),
    ensures
        in_core(hubs, nodes, a),
{
    let p = choose|p: Seq<(int, int)>| #[trigger] is_network_path(hubs, nodes, p) && p.last() == c;
    let q = p.push(a);
    assert forall|i: int| 1 <= i < q.len() implies adjacent(q[i - 1], #[trigger] q[i])
        && is_network_cell(nodes, q[i]) by {
        if i < p.len() {
            assert(q[i] == p[i] && q[i - 1] == p[i - 1]);
        }
    }
    assert(is_network_path(hubs, nodes, q));
}

/// A core cell is a hub cell or a network building.
proof fn lemma_core_origin(hubs: Seq<MultiCellBuilding>, nodes: Seq<NetworkNode>, c: (int, int))
    requires
        in_core(hubs, nodes, c),
    ensures
        is_hub_cell(hubs, c) || is_network_cell(nodes, c),
{
    let p = choose|p: Seq<(int, int)>| #[trigger] is_network_path(hubs, nodes, p) && p.last() == c;
    if p.len() > 1 {
        assert(is_network_cell(nodes, p[p.len() - 1]));
    }
}

/// A set that holds the hub cells and is closed under stepping to adjacent
/// network buildings holds the whole core network.
proof fn lemma_closed_holds_core(
    hubs: Seq<MultiCellBuilding>,
    nodes: Seq<NetworkNode>,
    s: Set<(int, int)>,
    p: Seq<(int, int)>,
)
    requires
        is_network_path(hubs, nodes, p),
        forall|c: (int, int)| #[trigger] is_hub_cell(hubs, c) ==> s.contains(c),
        forall|c: (int, int)| #[trigger] s.contains(c) ==> neighbours_closed(s, nodes, c),
    ensures
        s.contains(p.last()),
    decreases p.len(),
{
    if p.len() > 1 {
        let q = p.drop_last();
        assert forall|i: int| 1 <= i < q.len() implies adjacent(q[i - 1], #[trigger] q[i])
            && is_network_cell(nodes, q[i]) by {
            assert(q[i] == p[i] && q[i - 1] == p[i - 1]);
        }
        assert(is_network_path(hubs, nodes, q));
        lemma_closed_holds_core(hubs, nodes, s, q);
        let c = q.last();
        let a = p.last();
        assert(adjacent(p[p.len() - 2], p[p.len() - 1]));
        assert(is_network_cell(nodes, p[p.len() - 1]));
        assert(neighbours_closed(s, nodes, c));
    } else {
        assert(is_hub_cell(hubs, p[0]));
    }
}

/// The core network is the least set of cells that holds every hub cell and
/// is closed under stepping to an adjacent cell that holds a network
/// building: it holds the hub cells, it is so closed, and every set that
/// holds the hub cells and is so closed holds it.
pub proof fn lemma_core_is_least_closed_set(
    hubs: Seq<MultiCellBuilding>,
    nodes: Seq<NetworkNode>,
    s: Set<(int, int)>,
)
    ensures
        forall|c: (int, int)| #[trigger] is_hub_cell(hubs, c) ==> in_core(hubs, nodes, c),
        forall|c: (int, int), a: (int, int)|
            #![trigger in_core(hubs, nodes, c), in_core(hubs, nodes, a)]
            in_core(hubs, nodes, c) && adjacent(c, a) && is_network_cell(nodes, a) ==> in_core(
                hubs,
                nodes,
                a,
            ),
        ((forall|c: (int, int)| #[trigger] is_hub_cell(hubs, c) ==> s.contains(c)) && (forall|
            c: (int, int),
        |
            #[trigger] s.contains(c) ==> neighbours_closed(s, nodes, c))) ==> forall|c: (int, int)|
            #[trigger] in_core(hubs, nodes, c) ==> s.contains(c),
{
    assert forall|c: (int, int)| #[trigger] is_hub_cell(hubs, c) implies in_core(hubs, nodes, c) by {
        lemma_hub_in_core(hubs, nodes, c);
    }
    assert forall|c: (int, int), a: (int, int)|
        #![trigger in_core(hubs, nodes, c), in_core(hubs, nodes, a)]
        in_core(hubs, nodes, c) && adjacent(c, a) && is_network_cell(nodes, a) implies in_core(
            hubs,
            nodes,
            a,
        ) by {
        lemma_extend_core(hubs, nodes, c, a);
    }
    if (forall|c: (int, int)| #[trigger] is_hub_cell(hubs, c) ==> s.contains(c)) && (forall|
        c: (int, int),
    | #[trigger] s.contains(c) ==> neighbours_closed(s, nodes, c)) {
        assert forall|c: (int, int)| #[trigger] in_core(hubs, nodes, c) implies s.contains(c) by {
            let p = choose|p: Seq<(int, int)>| #[trigger] is_network_path(hubs, nodes, p) && p.last() == c;
            lemma_closed_holds_core(hubs, nodes, s, p);
        }
    }
}

/// The network law over the two computed sets: the core holds every hub
/// cell, is closed under stepping to adjacent network buildings, and lies in
/// every set that does both, so it is the least such set; the connected
/// network is the core and every building next to it, so it holds the core.
pub proof fn lemma_network_sets(
    hubs: Seq<MultiCellBuilding>,
    nodes: Seq<NetworkNode>,
    core: Set<(int, int)>,
    connected: Set<(int, int)>,
)
    requires
        forall|c: (int, int)| #[trigger] core.contains(c) <==> in_core(hubs, nodes, c),
        forall|c: (int, int)| #[trigger] connected.contains(c) <==> in_connected(hubs, nodes, c),
    ensures
        forall|c: (int, int)| #[trigger] is_hub_cell(hubs, c) ==> core.contains(c),
        forall|c: (int, int)| #[trigger] core.contains(c) ==> neighbours_closed(core, nodes, c),
        forall|s: Set<(int, int)>|
            #![trigger core.subset_of(s)]
            (forall|c: (int, int)| #[trigger] is_hub_cell(hubs, c) ==> s.contains(c)) && (forall|
                c: (int, int),
            | #[trigger] s.contains(c) ==> neighbours_closed(s, nodes, c)) ==> core.subset_of(s),
        forall|c: (int, int)|
            #[trigger] connected.contains(c) <==> (core.contains(c) || (is_building_cell(nodes, c)
                && has_neighbour_in(core, c.0, c.1))),
        core.subset_of(connected),
{
    assert forall|c: (int, int)| #[trigger] is_hub_cell(hubs, c) implies core.contains(c) by {
        lemma_hub_in_core(hubs, nodes, c);
    }
    assert forall|c: (int, int)| #[trigger] core.contains(c) implies neighbours_closed(core, nodes, c) by {
        if is_network_cell(nodes, (c.0 + 1, c.1)) {
            lemma_extend_core(hubs, nodes, c, (c.0 + 1, c.1));
        }
        if is_network_cell(nodes, (c.0 - 1, c.1)) {
            lemma_extend_core(hubs, nodes, c, (c.0 - 1, c.1));
        }
        if is_network_cell(nodes, (c.0, c.1 + 1)) {
            lemma_extend_core(hubs, nodes, c, (c.0, c.1 + 1));
        }
        if is_network_cell(nodes, (c.0, c.1 - 1)) {
            lemma_extend_core(hubs, nodes, c, (c.0, c.1 - 1));
        }
    }
    assert forall|s: Set<(int, int)>|
        #![trigger core.subset_of(s)]
        (forall|c: (int, int)| #[trigger] is_hub_cell(hubs, c) ==> s.contains(c)) && (forall|
            c: (int, int),
        | #[trigger] s.contains(c) ==> neighbours_closed(s, nodes, c)) implies core.subset_of(s) by {
        assert forall|c: (int, int)| core.contains(c) implies s.contains(c) by {
            let p = choose|p: Seq<(int, int)>| #[trigger] is_network_path(hubs, nodes, p) && p.last() == c;
            lemma_closed_holds_core(hubs, nodes, s, p);
        }
    }
    assert forall|c: (int, int)|
        #[trigger] connected.contains(c) <==> (core.contains(c) || (is_building_cell(nodes, c)
            && has_neighbour_in(core, c.0, c.1))) by {
        if has_neighbour_in(core, c.0, c.1) {
            assert(touches_core(hubs, nodes, c)) by {
                if core.contains((c.0, c.1 + 1)) {
                } else if core.contains((c.0, c.1 - 1)) {
                } else if core.contains((c.0 - 1, c.1)) {
                } else {
                    assert(core.contains((c.0 + 1, c.1)));
                }
            }
        }
        if touches_core(hubs, nodes, c) {
            if in_core(hubs, nodes, (c.0, c.1 + 1)) {
                assert(core.contains((c.0, c.1 + 1)));
            } else if in_core(hubs, nodes, (c.0, c.1 - 1)) {
                assert(core.contains((c.0, c.1 - 1)));
            } else if in_core(hubs, nodes, (c.0 + 1, c.1)) {
                assert(core.contains((c.0 + 1, c.1)));
            } else {
                assert(core.contains((c.0 - 1, c.1)));
            }
        }
    }
    assert forall|c: (int, int)| core.contains(c) implies connected.contains(c) by {
        assert(in_core(hubs, nodes, c));
    }
}

/// The first building on the building layer with a network component at `a`.
fn find_network_node(nodes: &Vec<NetworkNode>, a: (i32, i32)) -> (r: Option<usize>)
    ensures
        match r {
            Some(i) => i < nodes@.len() && nodes@[i as int].layer == BUILDING_LAYER
                && nodes@[i as int].network && pos_cell(nodes@[i as int].position) == cell_of(a),
            None => !is_network_cell(nodes@, cell_of(a)),
        },
{
    let mut i: usize = 0;
    while i < nodes.len()
        invariant
            i <= nodes@.len(),
            forall|j: int|
                0 <= j < i ==> !(nodes@[j].layer == BUILDING_LAYER && nodes@[j].network && pos_cell(
                    #[trigger] nodes@[j].position,
                ) == cell_of(a)),
        decreases nodes@.len() - i,
    {
        let n = nodes[i];
        if n.layer == BUILDING_LAYER && n.network && n.position.x == a.0 && n.position.y == a.1 {
            return Some(i);
        }
        i = i + 1;
    }
    None
}

/// Adds `a` to the core when it holds a network building and is new; returns
/// the index of that building.
fn extend_core(core: &mut CellSet, nodes: &Vec<NetworkNode>, a: (i32, i32)) -> (r: Option<usize>)
    ensures
        match r {
            Some(i) => {
                &&& i < nodes@.len()
                &&& nodes@[i as int].layer == BUILDING_LAYER && nodes@[i as int].network
                &&& pos_cell(nodes@[i as int].position) == cell_of(a)
                &&& !old(core)@.contains(cell_of(a))
                &&& final(core)@ == old(core)@.insert(cell_of(a))
                &&& final(core).cells() == old(core).cells().push(a)
            },
            None => {
                &&& final(core)@ == old(core)@
                &&& final(core).cells() == old(core).cells()
                &&& (old(core)@.contains(cell_of(a)) || !is_network_cell(nodes@, cell_of(a)))
            },
        },
{
    if core.contains(&a) {
        return None;
    }
    match find_network_node(nodes, a) {
        Some(i) => {
            core.insert(a);
            Some(i)
        },
        None => None,
    }
}

/// Whether `c` is one of the four neighbours of the given cell.
pub open spec fn is_neighbour(c: (int, int), a: (int, int)) -> bool {
    a == (c.0 + 1, c.1) || a == (c.0 - 1, c.1) || a == (c.0, c.1 + 1) || a == (c.0, c.1 - 1)
}

/// Computes the core network and the connected network.
///
/// The core starts from every hub's cells and grows, breadth first, to each
/// adjacent cell that holds a network building on the building layer. The
/// connected network adds every building on the building layer that touches
/// the core.
pub fn calculate_network_connectivity(
    nodes: &Vec<NetworkNode>,
    hubs: &Vec<MultiCellBuilding>,
) -> (r: (CellSet, CellSet))
    requires
        fits_grid(hubs@, nodes@),
    ensures
        forall|c: (int, int)| #[trigger] r.0@.contains(c) <==> in_core(hubs@, nodes@, c),
        forall|c: (int, int)| #[trigger] r.1@.contains(c) <==> in_connected(hubs@, nodes@, c),
        forall|c: (int, int)| #[trigger] is_hub_cell(hubs@, c) ==> r.0@.contains(c),
        forall|c: (int, int)| #[trigger] r.0@.contains(c) ==> neighbours_closed(r.0@, nodes@, c),
        forall|s: Set<(int, int)>|
            #![trigger r.0@.subset_of(s)]
            (forall|c: (int, int)| #[trigger] is_hub_cell(hubs@, c) ==> s.contains(c)) && (forall|
                c: (int, int),
            | #[trigger] s.contains(c) ==> neighbours_closed(s, nodes@, c)) ==> r.0@.subset_of(s),
        forall|c: (int, int)|
            #[trigger] r.1@.contains(c) <==> (r.0@.contains(c) || (is_building_cell(nodes@, c)
                && has_neighbour_in(r.0@, c.0, c.1))),
        r.0@.subset_of(r.1@),
{
    let mut core = CellSet::new();
    let mut k: usize = 0;
    while k < hubs.len()
        invariant
            k <= hubs@.len(),
            fits_grid(hubs@, nodes@),
            forall|c: (int, int)|
                #[trigger] core@.contains(c) <==> exists|j: int|
                    0 <= j < k && #[trigger] hub_cell(hubs@[j], c),
        decreases hubs@.len() - k,
    {
        let h = hubs[k];
        add_hub_cells(&mut core, h, Ghost(hubs@), Ghost(nodes@), Ghost(k as int));
        k = k + 1;
    }
    proof {
        assert forall|c: (int, int)| #[trigger] core@.contains(c) implies in_core(hubs@, nodes@, c) by {
            let j = choose|j: int| 0 <= j < k && #[trigger] hub_cell(hubs@[j], c);
            assert(is_hub_cell(hubs@, c));
            lemma_hub_in_core(hubs@, nodes@, c);
        }
        assert forall|c: (int, int)| #[trigger] is_hub_cell(hubs@, c) implies core@.contains(c) by {
            let j = choose|j: int| 0 <= j < hubs@.len() && #[trigger] hub_cell(hubs@[j], c);
        }
    }
    let ghost seeded = core.cells().len();
    let ghost mut used: Set<int> = Set::empty();
    let mut head: usize = 0;
    while head < core.len()
        invariant
            fits_grid(hubs@, nodes@),
            head <= core.cells().len(),
            core.cells().len() == seeded + used.len(),
            used.finite(),
            forall|j: int| #[trigger] used.contains(j) ==> 0 <= j < nodes@.len(),
            forall|j: int| #[trigger] used.contains(j) ==> core@.contains(pos_cell(nodes@[j].position)),
            forall|c: (int, int)| #[trigger] core@.contains(c) ==> in_core(hubs@, nodes@, c),
            forall|c: (int, int)| #[trigger] is_hub_cell(hubs@, c) ==> core@.contains(c),
            forall|i: int|
                0 <= i < head ==> neighbours_closed(core@, nodes@, cell_of(#[trigger] core.cells()[i])),
        decreases seeded + nodes@.len() - head,
    {
        proof {
            vstd::set_lib::lemma_int_range(0, nodes@.len() as int);
            vstd::set_lib::lemma_len_subset(used, vstd::set_lib::set_int_range(0, nodes@.len() as int));
        }
        let c = core.at(head);
        proof {
            lemma_core_origin(hubs@, nodes@, cell_of(c));
            if is_network_cell(nodes@, cell_of(c)) {
                let j = choose|j: int|
                    0 <= j < nodes@.len() && nodes@[j].layer == BUILDING_LAYER && nodes@[j].network
                        && pos_cell(#[trigger] nodes@[j].position) == cell_of(c);
                assert(inner(nodes@[j].position.x as int));
            } else {
                let j = choose|j: int| 0 <= j < hubs@.len() && #[trigger] hub_cell(hubs@[j], cell_of(c));
            }
        }
        let neighbours: [(i32, i32); 4] = [(c.0 + 1, c.1), (c.0 - 1, c.1), (c.0, c.1 + 1), (c.0, c.1 - 1)];
        let mut n: usize = 0;
        while n < 4
            invariant
                n <= 4,
                neighbours@.len() == 4,
                cell_of(neighbours@[0]) == (c.0 as int + 1, c.1 as int),
                cell_of(neighbours@[1]) == (c.0 as int - 1, c.1 as int),
                cell_of(neighbours@[2]) == (c.0 as int, c.1 as int + 1),
                cell_of(neighbours@[3]) == (c.0 as int, c.1 as int - 1),
                inner(c.0 as int) && inner(c.1 as int),
                in_core(hubs@, nodes@, cell_of(c)),
                core@.contains(cell_of(c)),
                head < core.cells().len(),
                core.cells()[head as int] == c,
                core.cells().len() == seeded + used.len(),
                used.finite(),
                forall|j: int| #[trigger] used.contains(j) ==> 0 <= j < nodes@.len(),
                forall|j: int| #[trigger] used.contains(j) ==> core@.contains(pos_cell(nodes@[j].position)),
                forall|x: (int, int)| #[trigger] core@.contains(x) ==> in_core(hubs@, nodes@, x),
                forall|x: (int, int)| #[trigger] is_hub_cell(hubs@, x) ==> core@.contains(x),
                forall|i: int|
                    0 <= i < head ==> neighbours_closed(core@, nodes@, cell_of(#[trigger] core.cells()[i])),
                forall|m: int| 0 <= m < n ==> {
                    let a = cell_of(#[trigger] neighbours@[m]);
                    is_network_cell(nodes@, a) ==> core@.contains(a)
                },
            decreases 4 - n,
        {
            let a = neighbours[n];
            let ghost before = core@;
            let ghost before_cells = core.cells();
            let found = extend_core(&mut core, nodes, a);
            proof {
                assert(is_neighbour(cell_of(c), cell_of(a)));
                match found {
                    Some(j) => {
                        lemma_extend_core(hubs@, nodes@, cell_of(c), cell_of(a));
                        assert(!used.contains(j as int));
                        used = used.insert(j as int);
                        assert forall|i: int| 0 <= i < head implies neighbours_closed(core@, nodes@, cell_of(#[trigger] core.cells()[i])) by {
                            assert(core.cells()[i] == before_cells[i]);
                            assert(neighbours_closed(before, nodes@, cell_of(before_cells[i])));
                        }
                        assert forall|x: (int, int)| #[trigger] core@.contains(x) implies in_core(hubs@, nodes@, x) by {
                            if x != cell_of(a) {
                                assert(before.contains(x));
                            }
                        }
                        assert(core.cells()[head as int] == before_cells[head as int]);
                    },
                    None => {},
                }
            }
            n = n + 1;
        }
        proof {
            assert(neighbours_closed(core@, nodes@, cell_of(c))) by {
                assert(cell_of(neighbours@[0]) == cell_of(neighbours@[0]));
                assert(cell_of(neighbours@[1]) == cell_of(neighbours@[1]));
                assert(cell_of(neighbours@[2]) == cell_of(neighbours@[2]));
                assert(cell_of(neighbours@[3]) == cell_of(neighbours@[3]));
            }
        }
        head = head + 1;
    }
    proof {
        core.lemma_cells();
        assert forall|x: (int, int)| #[trigger] core@.contains(x) implies neighbours_closed(core@, nodes@, x) by {
            let i = choose|i: int| 0 <= i < core.cells().len() && cell_of(#[trigger] core.cells()[i]) == x;
        }
        assert forall|x: (int, int)| in_core(hubs@, nodes@, x) implies #[trigger] core@.contains(x) by {
            let p = choose|p: Seq<(int, int)>| #[trigger] is_network_path(hubs@, nodes@, p) && p.last() == x;
            lemma_closed_holds_core(hubs@, nodes@, core@, p);
        }
    }
    let connected = extend_to_buildings(&core, nodes, Ghost(hubs@));
    proof {
        lemma_network_sets(hubs@, nodes@, core@, connected@);
    }
    (core, connected)
}

/// Adds every cell of the hub `h` (the `k`-th of `hubs`) to `core`.
fn add_hub_cells(
    core: &mut CellSet,
    h: MultiCellBuilding,
    Ghost(hubs): Ghost<Seq<MultiCellBuilding>>,
    Ghost(nodes): Ghost<Seq<NetworkNode>>,
    Ghost(k): Ghost<int>,
)
    requires
        0 <= k < hubs.len(),
        hubs[k] == h,
        fits_grid(hubs, nodes),
        forall|c: (int, int)|
            #[trigger] old(core)@.contains(c) <==> exists|j: int|
                0 <= j < k && #[trigger] hub_cell(hubs[j], c),
    ensures
        forall|c: (int, int)|
            #[trigger] final(core)@.contains(c) <==> exists|j: int|
                0 <= j < k + 1 && #[trigger] hub_cell(hubs[j], c),
{
    let hw = h.width / 2;
    let hh = h.height / 2;
    assert(hw == half(h.width) && hh == half(h.height));
    if hw < 0 {
        proof {
            assert forall|c: (int, int)| #[trigger] core@.contains(c) <==> exists|j: int|
                0 <= j < k + 1 && #[trigger] hub_cell(hubs[j], c) by {
                if exists|j: int| 0 <= j < k + 1 && #[trigger] hub_cell(hubs[j], c) {
                    let j = choose|j: int| 0 <= j < k + 1 && #[trigger] hub_cell(hubs[j], c);
                    assert(j != k);
                }
            }
        }
        return;
    }
    let ghost cx = h.center_x as int;
    let ghost cy = h.center_y as int;
    let mut dy: i32 = -hw;
    while dy <= hw
        invariant
            hw == half(h.width),
            hh == half(h.height),
            0 <= hw,
            -hw <= dy <= hw + 1,
            cx == h.center_x,
            cy == h.center_y,
            0 <= k < hubs.len(),
            hubs[k] == h,
            fits_grid(hubs, nodes),
            forall|c: (int, int)|
                #[trigger] core@.contains(c) <==> (exists|j: int|
                    0 <= j < k && #[trigger] hub_cell(hubs[j], c)) || (hub_cell(h, c) && c.1 - cy < dy),
        decreases hw + 1 - dy,
    {
        let mut dx: i32 = -hw;
        while dx <= hh
            invariant
                hw == half(h.width),
                hh == half(h.height),
                0 <= hw,
                -hw <= dy <= hw,
                -hw <= dx,
                dx <= hh + 1 || dx == -hw,
                cx == h.center_x,
                cy == h.center_y,
                0 <= k < hubs.len(),
                hubs[k] == h,
                fits_grid(hubs, nodes),
                forall|c: (int, int)|
                    #[trigger] core@.contains(c) <==> (exists|j: int|
                        0 <= j < k && #[trigger] hub_cell(hubs[j], c)) || (hub_cell(h, c) && (c.1
                        - cy < dy || (c.1 - cy == dy && c.0 - cx < dx))),
            decreases hh + 1 - dx,
        {
            proof {
                let c = (cx + dx, cy + dy);
                assert(hub_cell(hubs[k], c));
                assert(inner(c.0) && inner(c.1));
            }
            core.insert((h.center_x + dx, h.center_y + dy));
            dx = dx + 1;
        }
        dy = dy + 1;
    }
    proof {
        assert forall|c: (int, int)| #[trigger] core@.contains(c) <==> exists|j: int|
            0 <= j < k + 1 && #[trigger] hub_cell(hubs[j], c) by {
            if hub_cell(h, c) {
                assert(hub_cell(hubs[k], c));
            }
            if exists|j: int| 0 <= j < k + 1 && #[trigger] hub_cell(hubs[j], c) {
                let j = choose|j: int| 0 <= j < k + 1 && #[trigger] hub_cell(hubs[j], c);
                if j == k {
                    assert(hub_cell(h, c));
                }
            }
        }
    }
}

/// The core plus every building on the building layer that touches it.
fn extend_to_buildings(
    core: &CellSet,
    nodes: &Vec<NetworkNode>,
    Ghost(hubs): Ghost<Seq<MultiCellBuilding>>,
) -> (connected: CellSet)
    requires
        fits_grid(hubs, nodes@),
        forall|c: (int, int)| #[trigger] core@.contains(c) <==> in_core(hubs, nodes@, c),
    ensures
        forall|c: (int, int)| #[trigger] connected@.contains(c) <==> in_connected(hubs, nodes@, c),
{
    let mut connected = core.duplicate();
    let mut i: usize = 0;
    while i < nodes.len()
        invariant
            i <= nodes@.len(),
            fits_grid(hubs, nodes@),
            forall|c: (int, int)| #[trigger] core@.contains(c) <==> in_core(hubs, nodes@, c),
            forall|c: (int, int)|
                #[trigger] connected@.contains(c) <==> in_core(hubs, nodes@, c) || exists|j: int|
                    0 <= j < i && nodes@[j].layer == BUILDING_LAYER && pos_cell(
                        #[trigger] nodes@[j].position,
                    ) == c && touches_core(hubs, nodes@, c),
        decreases nodes@.len() - i,
    {
        let node = nodes[i];
        let ghost c = pos_cell(node.position);
        if node.layer == BUILDING_LAYER {
            let x = node.position.x;
            let y = node.position.y;
            proof {
                assert(inner(nodes@[i as int].position.x as int));
            }
            if !core.contains(&(x, y)) {
                if core.contains(&(x, y + 1)) || core.contains(&(x, y - 1)) || core.contains(
                    &(x + 1, y),
                ) || core.contains(&(x - 1, y)) {
                    connected.insert((x, y));
                }
            }
        }
        proof {
            assert forall|d: (int, int)| #[trigger] connected@.contains(d) <==> in_core(hubs, nodes@, d)
                || exists|j: int|
                0 <= j < i + 1 && nodes@[j].layer == BUILDING_LAYER && pos_cell(
                    #[trigger] nodes@[j].position,
                ) == d && touches_core(hubs, nodes@, d) by {
                if exists|j: int|
                    0 <= j < i + 1 && nodes@[j].layer == BUILDING_LAYER && pos_cell(
                        #[trigger] nodes@[j].position,
                    ) == d && touches_core(hubs, nodes@, d) {
                    let j = choose|j: int|
                        0 <= j < i + 1 && nodes@[j].layer == BUILDING_LAYER && pos_cell(
                            #[trigger] nodes@[j].position,
                        ) == d && touches_core(hubs, nodes@, d);
                    if j < i {
                        assert(connected@.contains(d));
                    }
                }
            }
        }
        i = i + 1;
    }
    proof {
        assert forall|c: (int, int)| #[trigger] connected@.contains(c) <==> in_connected(hubs, nodes@, c) by {
            if is_building_cell(nodes@, c) && touches_core(hubs, nodes@, c) {
                let j = choose|j: int|
                    0 <= j < nodes@.len() && nodes@[j].layer == BUILDING_LAYER && pos_cell(
                        #[trigger] nodes@[j].position,
                    ) == c;
            }
        }
    }
    connected
}

/// The cells of the core and of the connected network, as last computed.
pub struct NetworkConnectivity {
    core_network_cells: CellSet,
    connected_cells: CellSet,
}

/// Two cells drawn as linked: adjacent cells of the connected network, one
/// of them in the core.
pub open spec fn is_link(core: Set<(int, int)>, connected: Set<(int, int)>, a: (int, int), b: (int, int)) -> bool {
    &&& connected.contains(a)
    &&& connected.contains(b)
    &&& adjacent(a, b)
    &&& (core.contains(a) || core.contains(b))
}

/// A link, as a pair of cells.
pub open spec fn link_cells(l: ((i32, i32), (i32, i32))) -> ((int, int), (int, int)) {
    (cell_of(l.0), cell_of(l.1))
}

/// Whether two cells share an edge, on machine integers.
fn cells_adjacent(a: (i32, i32), b: (i32, i32)) -> (r: bool)
    ensures
        r == adjacent(cell_of(a), cell_of(b)),
{
    let dx: i64 = if a.0 < b.0 {
        b.0 as i64 - a.0 as i64
    } else {
        a.0 as i64 - b.0 as i64
    };
    let dy: i64 = if a.1 < b.1 {
        b.1 as i64 - a.1 as i64
    } else {
        a.1 as i64 - b.1 as i64
    };
    (dx == 1 && dy == 0) || (dx == 0 && dy == 1)
}

/// One of the four neighbours of `(x, y)` is in `s`.
pub open spec fn has_neighbour_in(s: Set<(int, int)>, x: int, y: int) -> bool {
    s.contains((x, y + 1)) || s.contains((x, y - 1)) || s.contains((x - 1, y)) || s.contains(
        (x + 1, y),
    )
}

impl NetworkConnectivity {
    /// The core network cells.
    pub closed spec fn core_view(&self) -> Set<(int, int)> {
        self.core_network_cells@
    }

    /// The connected network cells.
    pub closed spec fn connected_view(&self) -> Set<(int, int)> {
        self.connected_cells@
    }

    /// No cell is connected yet.
    pub fn new() -> (n: Self)
        ensures
            n.core_view() == Set::<(int, int)>::empty(),
            n.connected_view() == Set::<(int, int)>::empty(),
    {
        NetworkConnectivity { core_network_cells: CellSet::new(), connected_cells: CellSet::new() }
    }

    pub fn is_cell_connected(&self, x: i32, y: i32) -> (b: bool)
        ensures
            b == self.connected_view().contains((x as int, y as int)),
    {
        self.connected_cells.contains(&(x, y))
    }

    pub fn is_core_network_cell(&self, x: i32, y: i32) -> (b: bool)
        ensures
            b == self.core_view().contains((x as int, y as int)),
    {
        self.core_network_cells.contains(&(x, y))
    }

    pub fn is_adjacent_to_connected_network(&self, x: i32, y: i32) -> (b: bool)
        requires
            inner(x as int) && inner(y as int),
        ensures
            b == has_neighbour_in(self.connected_view(), x as int, y as int),
    {
        self.connected_cells.contains(&(x, y + 1)) || self.connected_cells.contains(&(x, y - 1))
            || self.connected_cells.contains(&(x - 1, y)) || self.connected_cells.contains(
            &(x + 1, y),
        )
    }

    pub fn is_adjacent_to_core_network(&self, x: i32, y: i32) -> (b: bool)
        requires
            inner(x as int) && inner(y as int),
        ensures
            b == has_neighbour_in(self.core_view(), x as int, y as int),
    {
        self.core_network_cells.contains(&(x, y + 1)) || self.core_network_cells.contains(
            &(x, y - 1),
        ) || self.core_network_cells.contains(&(x - 1, y)) || self.core_network_cells.contains(
            &(x + 1, y),
        )
    }

    /// Marks a cell as connected.
    pub fn add_connected_cell(&mut self, x: i32, y: i32)
        ensures
            final(self).connected_view() == old(self).connected_view().insert((x as int, y as int)),
            final(self).core_view() == old(self).core_view(),
    {
        self.connected_cells.insert((x, y));
    }

    /// Marks a cell as part of the core network.
    pub fn add_core_network_cell(&mut self, x: i32, y: i32)
        ensures
            final(self).core_view() == old(self).core_view().insert((x as int, y as int)),
            final(self).connected_view() == old(self).connected_view(),
    {
        self.core_network_cells.insert((x, y));
    }

    /// Whether the network must be computed again: after a change, or while
    /// the core is still empty.
    pub fn should_update(&self, network_changed: bool) -> (b: bool)
        ensures
            b == (network_changed || self.core_view().len() == 0),
    {
        let n = self.core_network_cells.len();
        network_changed || n == 0
    }

    /// The links drawn between network cells: every pair of adjacent cells of
    /// the connected network of which one is in the core, each pair once.
    pub fn connection_links(&self) -> (links: Vec<((i32, i32), (i32, i32))>)
        ensures
            forall|k: int|
                0 <= k < links@.len() ==> is_link(
                    self.core_view(),
                    self.connected_view(),
                    link_cells(#[trigger] links@[k]).0,
                    link_cells(links@[k]).1,
                ),
            forall|a: (int, int), b: (int, int)|
                #[trigger] is_link(self.core_view(), self.connected_view(), a, b) ==> exists|k: int|
                    0 <= k < links@.len() && (link_cells(#[trigger] links@[k]) == (a, b) || link_cells(
                        links@[k],
                    ) == (b, a)),
            forall|k1: int, k2: int|
                0 <= k1 < k2 < links@.len() ==> link_cells(#[trigger] links@[k1]) != link_cells(
                    #[trigger] links@[k2],
                ) && link_cells(links@[k1]) != (link_cells(links@[k2]).1, link_cells(links@[k2]).0),
    {
        let n = self.connected_cells.len();
        let ghost cells = self.connected_cells.cells();
        let ghost core = self.core_view();
        let ghost conn = self.connected_view();
        proof {
            self.connected_cells.lemma_cells();
        }
        let mut links: Vec<((i32, i32), (i32, i32))> = Vec::new();
        let ghost mut idx: Seq<(int, int)> = Seq::empty();
        let mut i: usize = 0;
        while i < n
            invariant
                n == cells.len(),
                cells == self.connected_cells.cells(),
                cells.no_duplicates(),
                core == self.core_view(),
                conn == self.connected_view(),
                forall|p: int| 0 <= p < cells.len() ==> conn.contains(cell_of(#[trigger] cells[p])),
                forall|c: (int, int)| #![trigger conn.contains(c)] conn.contains(c) ==> exists|p: int|
                    0 <= p < cells.len() && cell_of(#[trigger] cells[p]) == c,
                i <= n,
                idx.len() == links@.len(),
                forall|k: int| #![trigger idx[k]] 0 <= k < idx.len() ==> 0 <= idx[k].0 < idx[k].1 < n && idx[k].0 < i
                    && links@[k] == (cells[idx[k].0], cells[idx[k].1])
                    && is_link(core, conn, cell_of(cells[idx[k].0]), cell_of(cells[idx[k].1])),
                forall|k1: int, k2: int| 0 <= k1 < k2 < idx.len() ==> (#[trigger] idx[k1]).0 < (#[trigger] idx[k2]).0
                    || (idx[k1].0 == idx[k2].0 && idx[k1].1 < idx[k2].1),
                forall|p: int, q: int| 0 <= p < i && p < q < n && is_link(core, conn, cell_of(#[trigger] cells[p]), cell_of(#[trigger] cells[q]))
                    ==> exists|k: int| 0 <= k < idx.len() && #[trigger] idx[k] == (p, q),
            decreases n - i,
        {
            let mut j: usize = i + 1;
            while j < n
                invariant
                    n == cells.len(),
                    cells == self.connected_cells.cells(),
                    cells.no_duplicates(),
                    core == self.core_view(),
                    conn == self.connected_view(),
                    forall|p: int| 0 <= p < cells.len() ==> conn.contains(cell_of(#[trigger] cells[p])),
                    i < n,
                    i + 1 <= j <= n,
                    idx.len() == links@.len(),
                    forall|k: int| #![trigger idx[k]] 0 <= k < idx.len() ==> 0 <= idx[k].0 < idx[k].1 < n && (idx[k].0 < i
                        || (idx[k].0 == i && idx[k].1 < j))
                        && links@[k] == (cells[idx[k].0], cells[idx[k].1])
                        && is_link(core, conn, cell_of(cells[idx[k].0]), cell_of(cells[idx[k].1])),
                    forall|k1: int, k2: int| 0 <= k1 < k2 < idx.len() ==> (#[trigger] idx[k1]).0 < (#[trigger] idx[k2]).0
                        || (idx[k1].0 == idx[k2].0 && idx[k1].1 < idx[k2].1),
                    forall|p: int, q: int| (0 <= p < i && p < q < n || p == i && i < q < j) && is_link(core, conn, cell_of(#[trigger] cells[p]), cell_of(#[trigger] cells[q]))
                        ==> exists|k: int| 0 <= k < idx.len() && #[trigger] idx[k] == (p, q),
                decreases n - j,
            {
                let a = self.connected_cells.at(i);
                let b = self.connected_cells.at(j);
                let ghost old_idx = idx;
                let linked = cells_adjacent(a, b) && (self.core_network_cells.contains(&a)
                    || self.core_network_cells.contains(&b));
                proof {
                    assert(linked == is_link(core, conn, cell_of(cells[i as int]), cell_of(cells[j as int])));
                }
                if linked {
                    links.push((a, b));
                    proof {
                        idx = idx.push((i as int, j as int));
                        assert(idx[idx.len() - 1] == (i as int, j as int));
                    }
                }
                proof {
                    assert forall|p: int, q: int| (0 <= p < i && p < q < n || p == i && i < q < j + 1) && is_link(core, conn, cell_of(#[trigger] cells[p]), cell_of(#[trigger] cells[q]))
                        implies exists|k: int| 0 <= k < idx.len() && #[trigger] idx[k] == (p, q) by {
                        if p == i && q == j {
                            assert(idx[idx.len() - 1] == (p, q));
                        } else {
                            let k = choose|k: int| 0 <= k < old_idx.len() && #[trigger] old_idx[k] == (p, q);
                            assert(idx[k] == old_idx[k]);
                        }
                    }
                }
                j = j + 1;
            }
            i = i + 1;
        }
        proof {
            assert forall|k: int| 0 <= k < links@.len() implies is_link(
                core,
                conn,
                link_cells(#[trigger] links@[k]).0,
                link_cells(links@[k]).1,
            ) by {
                assert(0 <= idx[k].0 < idx[k].1 < n);
            }
            assert forall|a: (int, int), b: (int, int)|
                #[trigger] is_link(core, conn, a, b) implies exists|k: int|
                    0 <= k < links@.len() && (link_cells(#[trigger] links@[k]) == (a, b) || link_cells(links@[k]) == (b, a)) by {
                let p = choose|p: int| 0 <= p < cells.len() && cell_of(#[trigger] cells[p]) == a;
                let q = choose|q: int| 0 <= q < cells.len() && cell_of(#[trigger] cells[q]) == b;
                assert(p != q);
                if p < q {
                    let k = choose|k: int| 0 <= k < idx.len() && #[trigger] idx[k] == (p, q);
                    assert(link_cells(links@[k]) == (a, b));
                } else {
                    assert(is_link(core, conn, cell_of(cells[q]), cell_of(cells[p])));
                    let k = choose|k: int| 0 <= k < idx.len() && #[trigger] idx[k] == (q, p);
                    assert(link_cells(links@[k]) == (b, a));
                }
            }
            assert forall|k1: int, k2: int| 0 <= k1 < k2 < links@.len() implies link_cells(#[trigger] links@[k1]) != link_cells(
                #[trigger] links@[k2]) && link_cells(links@[k1]) != (link_cells(links@[k2]).1, link_cells(links@[k2]).0) by {
                let (p1, q1) = idx[k1];
                let (p2, q2) = idx[k2];
                assert(idx[k1].0 < idx[k2].0 || (idx[k1].0 == idx[k2].0 && idx[k1].1 < idx[k2].1));
                if link_cells(links@[k1]) == link_cells(links@[k2]) {
                    assert(cells[p1] == cells[p2]);
                    assert(cells[q1] == cells[q2]);
                }
                if link_cells(links@[k1]) == (link_cells(links@[k2]).1, link_cells(links@[k2]).0) {
                    assert(cells[p1] == cells[q2]);
                    assert(cells[q1] == cells[p2]);
                }
            }
        }
        links
    }

    /// Computes both networks again from the buildings and the hubs.
    pub fn update(&mut self, nodes: &Vec<NetworkNode>, hubs: &Vec<MultiCellBuilding>)
        requires
            fits_grid(hubs@, nodes@),
        ensures
            forall|c: (int, int)|
                #[trigger] final(self).core_view().contains(c) <==> in_core(hubs@, nodes@, c),
            forall|c: (int, int)|
                #[trigger] final(self).connected_view().contains(c) <==> in_connected(hubs@, nodes@, c),
    {
        let (core, connected) = calculate_network_connectivity(nodes, hubs);
        self.core_network_cells = core;
        self.connected_cells = connected;
    }
}

impl Default for NetworkConnectivity {
    fn default() -> (n: Self)
        ensures
            n.core_view() == Set::<(int, int)>::empty(),
            n.connected_view() == Set::<(int, int)>::empty(),
    {
        NetworkConnectivity::new()
    }
}

} // verus!
