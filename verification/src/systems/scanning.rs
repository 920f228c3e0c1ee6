//! Progressive exploration: a scanner reveals the map one square sector at a
//! time, nearest sector first and, among equally near ones, the next one
//! clockwise from the direction it revealed last.
use vstd::prelude::*;
use crate::grid::{area_cells, cell_of, rect_cells, CellSet, Grid, Position};

verus! {

/// Bound on revealed coordinates that the sector arithmetic handles.
pub open spec fn small(v: int) -> bool {
    -0x2000_0000 < v < 0x2000_0000
}

/// Bound on sector centers.
pub open spec fn bounded(v: int) -> bool {
    -0x4000_0000 < v < 0x4000_0000
}

/// `x / s` rounded to the nearest integer, halves away from zero (`s > 0`).
pub open spec fn round_div(x: int, s: int) -> int {
    if x >= 0 {
        (2 * x + s) / (2 * s)
    } else {
        -((-2 * x + s) / (2 * s))
    }
}

/// The center of the sector that holds coordinate `x`: the nearest multiple
/// of the sector size (no sector when the size is zero).
pub open spec fn sector_coord(x: int, s: int) -> int {
    if s == 0 {
        0
    } else {
        let a = if s < 0 {
            -s
        } else {
            s
        };
        round_div(x, a) * a
    }
}

/// Half a sector size, truncated toward zero.
pub open spec fn half_size(s: int) -> int {
    if s >= 0 {
        s / 2
    } else {
        -((-s) / 2)
    }
}

/// The cells of the square sector around a center.
pub open spec fn in_sector(center: (int, int), s: int, c: (int, int)) -> bool {
    let h = half_size(s);
    -h <= c.0 - center.0 <= h && -h <= c.1 - center.1 <= h
}

/// Every cell of the sector is revealed.
pub open spec fn sector_explored(grid: Set<(int, int)>, center: (int, int), s: int) -> bool {
    forall|c: (int, int)| #[trigger] in_sector(center, s, c) ==> grid.contains(c)
}

/// A hidden cell next to a revealed one.
pub open spec fn frontier_cell(grid: Set<(int, int)>, n: (int, int)) -> bool {
    &&& !grid.contains(n)
    &&& {
        ||| grid.contains((n.0 - 1, n.1))
        ||| grid.contains((n.0 + 1, n.1))
        ||| grid.contains((n.0, n.1 - 1))
        ||| grid.contains((n.0, n.1 + 1))
    }
}

/// A sector worth scanning: it holds a frontier cell and is not yet fully revealed.
pub open spec fn is_target(grid: Set<(int, int)>, s: int, c: (int, int)) -> bool {
    &&& exists|n: (int, int)|
        #[trigger] frontier_cell(grid, n) && (sector_coord(n.0, s), sector_coord(n.1, s)) == c
    &&& !sector_explored(grid, c, s)
}

pub open spec fn abs(v: int) -> int {
    if v < 0 {
        -v
    } else {
        v
    }
}

/// The Chebyshev distance between two cells.
pub open spec fn chebyshev(a: (int, int), b: (int, int)) -> int {
    let dx = abs(a.0 - b.0);
    let dy = abs(a.1 - b.1);
    if dx > dy {
        dx
    } else {
        dy
    }
}

/// The clockwise position, counted from north, of a point on the square ring
/// of Chebyshev radius `r` around the origin; it grows with the clockwise
/// angle and lies in `0..8r`.
pub open spec fn ring_pos(x: int, y: int, r: int) -> int {
    if y == r && x >= 0 {
        x
    } else if x == r {
        2 * r - y
    } else if y == -r {
        4 * r - x
    } else if x == -r {
        6 * r + y
    } else {
        8 * r + x
    }
}

/// A direction with the zero vector read as north.
pub open spec fn norm_dir(v: (int, int)) -> (int, int) {
    if v == (0int, 0int) {
        (0, 1)
    } else {
        v
    }
}

/// The order in which a scanner at `pos`, which last looked along `dir`,
/// takes a sector: by distance, then by clockwise angle from `dir` (the
/// sectors at or after that angle first, then those before it).
pub open spec fn scan_key(pos: (int, int), dir: (int, int), c: (int, int)) -> (int, int, int) {
    let v = (c.0 - pos.0, c.1 - pos.1);
    let d = chebyshev(c, pos);
    let r = norm_dir(dir);
    let m = chebyshev(r, (0, 0));
    let p = ring_pos(v.0, v.1, d);
    let reference = ring_pos(r.0 * d, r.1 * d, m * d);
    (d, if p * m >= reference {
        0
    } else {
        1
    }, p)
}

/// Lexicographic order on keys.
pub open spec fn key_lt(a: (int, int, int), b: (int, int, int)) -> bool {
    a.0 < b.0 || (a.0 == b.0 && (a.1 < b.1 || (a.1 == b.1 && a.2 < b.2)))
}

/// The scanner's state besides its timing.
#[derive(Clone, Copy, Debug)]
pub struct ScanState {
    pub position: Position,
    /// Sector spacing and reveal size.
    pub sector_size: i32,
    /// Where the last revealed sector lay, seen from the scanner.
    pub last_direction: (i32, i32),
    pub current_target_distance: i32,
}

/// All revealed cells and the sector size stay within the handled bounds.
///
/// Targets carry their Chebyshev distance from the scanner as an `i32`, and
/// sector cells are `i32` coordinates. With revealed cells and the scanner
/// below 2^29 in magnitude and sectors under 4096 cells wide, every hidden
/// neighbour, sector center (below 2^30), sector cell and distance (below
/// 2^31) is representable; with coordinates twice as far apart the distance
/// would not be.
pub open spec fn scan_bounds(grid: Set<(int, int)>, st: ScanState) -> bool {
    &&& forall|c: (int, int)| #[trigger] grid.contains(c) ==> small(c.0) && small(c.1)
    &&& small(st.position.x as int) && small(st.position.y as int)
    &&& 0 < st.sector_size < 0x1000
}

/// How many base intervals the scan of a sector at `distance` takes: one per
/// unit of distance, at most ten.
pub open spec fn intervals_for(distance: int) -> int {
    if distance < 10 {
        distance
    } else {
        10
    }
}

impl ScanState {
    /// Aims the next scan at `distance`; returns how many base intervals it
    /// takes.
    pub fn reset_for_distance(&mut self, distance: i32) -> (intervals: i32)
        ensures
            final(self).current_target_distance == distance,
            final(self).position == old(self).position,
            final(self).sector_size == old(self).sector_size,
            final(self).last_direction == old(self).last_direction,
            intervals == intervals_for(distance as int),
    {
        self.current_target_distance = distance;
        if distance < 10 {
            distance
        } else {
            10
        }
    }

    /// A scanner at `position` that looks north first, with sectors of 5.
    pub fn new(position: Position) -> (s: Self)
        ensures
            s.position == position,
            s.sector_size == 5,
            s.last_direction == (0i32, 1i32),
            s.current_target_distance == 1,
    {
        ScanState { position, sector_size: 5, last_direction: (0, 1), current_target_distance: 1 }
    }

    /// The center of the sector that holds a cell.
    pub fn to_sector_center(&self, x: i32, y: i32) -> (c: (i32, i32))
        requires
            bounded(x as int) && bounded(y as int),
            0 < self.sector_size < 0x1000,
        ensures
            cell_of(c) == (sector_coord(x as int, self.sector_size as int), sector_coord(
                y as int,
                self.sector_size as int,
            )),
            abs(c.0 - x) <= self.sector_size,
            abs(c.1 - y) <= self.sector_size,
    {
        (sector_coord_exec(x, self.sector_size), sector_coord_exec(y, self.sector_size))
    }

    /// Whether every cell of the sector around `(sector_x, sector_y)` is revealed.
    pub fn is_sector_fully_explored(&self, sector_x: i32, sector_y: i32, grid: &Grid) -> (b: bool)
        requires
            bounded(sector_x as int) && bounded(sector_y as int),
            0 < self.sector_size < 0x1000,
        ensures
            b == sector_explored(
                grid.valid_coordinates@,
                (sector_x as int, sector_y as int),
                self.sector_size as int,
            ),
    {
        let half = self.sector_size / 2;
        let ghost center = (sector_x as int, sector_y as int);
        let ghost s = self.sector_size as int;
        let mut dy: i32 = -half;
        while dy <= half
            invariant
                half == half_size(s),
                s == self.sector_size as int,
                0 <= half < 0x800,
                -half <= dy <= half + 1,
                bounded(sector_x as int) && bounded(sector_y as int),
                center == (sector_x as int, sector_y as int),
                forall|c: (int, int)|
                    #[trigger] in_sector(center, s, c) && c.1 - center.1 < dy
                        ==> grid.valid_coordinates@.contains(c),
            decreases half + 1 - dy,
        {
            let mut dx: i32 = -half;
            while dx <= half
                invariant
                    half == half_size(s),
                    s == self.sector_size as int,
                    0 <= half < 0x800,
                    -half <= dy <= half,
                    -half <= dx <= half + 1,
                    bounded(sector_x as int) && bounded(sector_y as int),
                    center == (sector_x as int, sector_y as int),
                    forall|c: (int, int)|
                        #[trigger] in_sector(center, s, c) && (c.1 - center.1 < dy || (c.1
                            - center.1 == dy && c.0 - center.0 < dx))
                            ==> grid.valid_coordinates@.contains(c),
                decreases half + 1 - dx,
            {
                if !grid.valid_coordinates.contains(&(sector_x + dx, sector_y + dy)) {
                    proof {
                        let c = (sector_x + dx, sector_y + dy);
                        assert(in_sector(center, s, c));
                        assert(!grid.valid_coordinates@.contains(c));
                        assert(!sector_explored(grid.valid_coordinates@, center, s));
                    }
                    return false;
                }
                dx = dx + 1;
            }
            dy = dy + 1;
        }
        true
    }

    /// The sectors worth scanning, as `(x, y, distance)`, nearest first and
    /// then clockwise from the last direction.
    pub fn find_exploration_targets(&self, grid: &Grid) -> (targets: Vec<(i32, i32, i32)>)
        requires
            scan_bounds(grid.valid_coordinates@, *self),
        ensures
            forall|c: (int, int)|
                #![trigger is_target(grid.valid_coordinates@, self.sector_size as int, c)]
                #![trigger listed(targets@, c)]
                is_target(grid.valid_coordinates@, self.sector_size as int, c) <==> listed(targets@, c),
            forall|i: int|
                0 <= i < targets@.len() ==> (#[trigger] targets@[i]).2 == chebyshev(
                    target_cell(targets@[i]),
                    pos_of(*self),
                ),
            forall|i: int, j: int|
                0 <= i < j < targets@.len() ==> key_lt(
                    self.key_of(#[trigger] targets@[i]),
                    self.key_of(#[trigger] targets@[j]),
                ),
    {
        let candidates = self.candidate_sectors(grid);
        let mut targets: Vec<(i32, i32, i32)> = Vec::new();
        let n = candidates.len();
        let mut i: usize = 0;
        while i < n
            invariant
                n == candidates.cells().len(),
                i <= n,
                scan_bounds(grid.valid_coordinates@, *self),
                forall|c: (int, int)| #[trigger] candidates@.contains(c) <==> is_target(grid.valid_coordinates@, self.sector_size as int, c),
                forall|c: (int, int)| #[trigger] candidates@.contains(c) ==> bounded(c.0) && bounded(c.1),
                candidates.cells().no_duplicates(),
                forall|c: (int, int)|
                    #![trigger in_prefix(candidates.cells(), i as int, c)]
                    #![trigger listed(targets@, c)]
                    in_prefix(candidates.cells(), i as int, c) <==> listed(targets@, c),
                forall|j: int|
                    0 <= j < targets@.len() ==> (#[trigger] targets@[j]).2 == chebyshev(
                        target_cell(targets@[j]),
                        pos_of(*self),
                    ),
                forall|j: int| 0 <= j < targets@.len() ==> bounded((#[trigger] targets@[j]).0 as int) && bounded(targets@[j].1 as int),
                forall|a: int, b: int|
                    0 <= a < b < targets@.len() ==> key_lt(self.key_of(#[trigger] targets@[a]), self.key_of(#[trigger] targets@[b])),
            decreases n - i,
        {
            let c = candidates.at(i);
            proof {
                candidates.lemma_cells();
                assert forall|j: int| 0 <= j < targets@.len() implies target_cell(#[trigger] targets@[j]) != cell_of(c) by {
                    if target_cell(targets@[j]) == cell_of(c) {
                        assert(listed(targets@, cell_of(c)));
                        assert(in_prefix(candidates.cells(), i as int, cell_of(c)));
                        let k = choose|k: int| 0 <= k < i && cell_of(#[trigger] candidates.cells()[k]) == cell_of(c);
                        assert(candidates.cells()[k] == candidates.cells()[i as int]);
                    }
                }
            }
            let ghost prev = targets@;
            let idx = self.insert_target(&mut targets, c);
            proof {
                assert forall|d: (int, int)|
                    #![trigger in_prefix(candidates.cells(), i + 1, d)]
                    #![trigger listed(targets@, d)]
                    in_prefix(candidates.cells(), i + 1, d) <==> listed(targets@, d) by {
                    if in_prefix(candidates.cells(), i + 1, d) {
                        let k = choose|k: int| 0 <= k < i + 1 && cell_of(#[trigger] candidates.cells()[k]) == d;
                        if k < i {
                            assert(in_prefix(candidates.cells(), i as int, d));
                            assert(listed(prev, d));
                            let j = choose|j: int| 0 <= j < prev.len() && target_cell(#[trigger] prev[j]) == d;
                            if j < idx {
                                assert(targets@[j] == prev[j]);
                            } else {
                                assert(targets@[j + 1] == prev[j]);
                            }
                        } else {
                            assert(target_cell(targets@[idx as int]) == cell_of(c));
                        }
                    }
                    if listed(targets@, d) {
                        let j = choose|j: int| 0 <= j < targets@.len() && target_cell(#[trigger] targets@[j]) == d;
                        if j != idx {
                            if j < idx {
                                assert(targets@[j] == prev[j]);
                                assert(listed(prev, d));
                            } else {
                                assert(targets@[j] == prev[j - 1]);
                                assert(listed(prev, d));
                            }
                            assert(in_prefix(candidates.cells(), i as int, d));
                        } else {
                            assert(cell_of(candidates.cells()[i as int]) == d);
                        }
                    }
                }
            }
            i = i + 1;
        }
        proof {
            candidates.lemma_cells();
            assert forall|c: (int, int)|
                #![trigger is_target(grid.valid_coordinates@, self.sector_size as int, c)]
                #![trigger listed(targets@, c)]
                is_target(grid.valid_coordinates@, self.sector_size as int, c) <==> listed(targets@, c) by {
                if candidates@.contains(c) {
                    let k = choose|k: int| 0 <= k < candidates.cells().len() && cell_of(#[trigger] candidates.cells()[k]) == c;
                    assert(in_prefix(candidates.cells(), n as int, c));
                }
                if listed(targets@, c) {
                    assert(in_prefix(candidates.cells(), n as int, c));
                    let k = choose|k: int| 0 <= k < n && cell_of(#[trigger] candidates.cells()[k]) == c;
                    assert(candidates@.contains(cell_of(candidates.cells()[k])));
                }
            }
        }
        targets
    }

    /// The sort key of a target.
    pub open spec fn key_of(&self, t: (i32, i32, i32)) -> (int, int, int) {
        scan_key(pos_of(*self), cell_of(self.last_direction), target_cell(t))
    }

    /// The order key of a sector center, as machine integers.
    pub fn target_key(&self, c: (i32, i32)) -> (k: (i64, i64, i128))
        requires
            bounded(c.0 as int) && bounded(c.1 as int),
            small(self.position.x as int) && small(self.position.y as int),
        ensures
            (k.0 as int, k.1 as int, k.2 as int) == scan_key(pos_of(*self), cell_of(self.last_direction), cell_of(c)),
            k.0 == chebyshev(cell_of(c), pos_of(*self)),
    {
        let vx: i64 = c.0 as i64 - self.position.x as i64;
        let vy: i64 = c.1 as i64 - self.position.y as i64;
        let ax: i64 = if vx < 0 { -vx } else { vx };
        let ay: i64 = if vy < 0 { -vy } else { vy };
        let d: i64 = if ax > ay { ax } else { ay };
        let (rx, ry): (i64, i64) = if self.last_direction.0 == 0 && self.last_direction.1 == 0 {
            (0, 1)
        } else {
            (self.last_direction.0 as i64, self.last_direction.1 as i64)
        };
        let abs_rx: i64 = if rx < 0 { -rx } else { rx };
        let abs_ry: i64 = if ry < 0 { -ry } else { ry };
        let m: i64 = if abs_rx > abs_ry { abs_rx } else { abs_ry };
        proof {
            assert(0 <= d < 0x8000_0000);
            assert(0 <= m <= 0x8000_0000);
            assert(-0x8000_0000 <= rx <= 0x8000_0000);
            assert(-0x8000_0000 <= ry <= 0x8000_0000);
            assert(-0x4000_0000_0000_0000 <= rx * d <= 0x4000_0000_0000_0000) by (nonlinear_arith)
                requires
                    -0x8000_0000 <= rx <= 0x8000_0000,
                    0 <= d < 0x8000_0000,
            ;
            assert(-0x4000_0000_0000_0000 <= ry * d <= 0x4000_0000_0000_0000) by (nonlinear_arith)
                requires
                    -0x8000_0000 <= ry <= 0x8000_0000,
                    0 <= d < 0x8000_0000,
            ;
            assert(0 <= m * d <= 0x4000_0000_0000_0000) by (nonlinear_arith)
                requires
                    0 <= m <= 0x8000_0000,
                    0 <= d < 0x8000_0000,
            ;
        }
        let p: i128 = ring_pos_exec(vx as i128, vy as i128, d as i128);
        let reference: i128 = ring_pos_exec(
            rx as i128 * d as i128,
            ry as i128 * d as i128,
            m as i128 * d as i128,
        );
        proof {
            assert(-0x10_0000_0000 <= p <= 0x10_0000_0000);
            assert(-0x1000_0000_0000_0000_0000 <= p * m <= 0x1000_0000_0000_0000_0000) by (nonlinear_arith)
                requires
                    -0x10_0000_0000 <= p <= 0x10_0000_0000,
                    0 <= m <= 0x8000_0000,
            ;
        }
        let group: i64 = if p * (m as i128) >= reference { 0 } else { 1 };
        (d, group, p)
    }

    /// Inserts a sector center into the sorted targets.
    fn insert_target(&self, targets: &mut Vec<(i32, i32, i32)>, c: (i32, i32)) -> (idx: usize)
        requires
            bounded(c.0 as int) && bounded(c.1 as int),
            small(self.position.x as int) && small(self.position.y as int),
            forall|j: int| 0 <= j < old(targets)@.len() ==> target_cell(#[trigger] old(targets)@[j]) != cell_of(c),
            forall|j: int| 0 <= j < old(targets)@.len() ==> bounded((#[trigger] old(targets)@[j]).0 as int) && bounded(old(targets)@[j].1 as int),
            forall|a: int, b: int|
                0 <= a < b < old(targets)@.len() ==> key_lt(self.key_of(#[trigger] old(targets)@[a]), self.key_of(#[trigger] old(targets)@[b])),
        ensures
            idx <= old(targets)@.len(),
            final(targets)@ == old(targets)@.insert(idx as int, (c.0, c.1, chebyshev(cell_of(c), pos_of(*self)) as i32)),
            forall|j: int| 0 <= j < final(targets)@.len() ==> bounded((#[trigger] final(targets)@[j]).0 as int) && bounded(final(targets)@[j].1 as int),
            forall|a: int, b: int|
                0 <= a < b < final(targets)@.len() ==> key_lt(self.key_of(#[trigger] final(targets)@[a]), self.key_of(#[trigger] final(targets)@[b])),
    {
        let kc = self.target_key(c);
        let ghost key_c = scan_key(pos_of(*self), cell_of(self.last_direction), cell_of(c));
        let mut j: usize = 0;
        while j < targets.len()
            invariant
                j <= targets@.len(),
                targets@ == old(targets)@,
                small(self.position.x as int) && small(self.position.y as int),
                forall|k: int| 0 <= k < targets@.len() ==> bounded((#[trigger] targets@[k]).0 as int) && bounded(targets@[k].1 as int),
                forall|k: int| 0 <= k < j ==> key_lt(self.key_of(#[trigger] targets@[k]), key_c),
                (kc.0 as int, kc.1 as int, kc.2 as int) == key_c,
                key_c == scan_key(pos_of(*self), cell_of(self.last_direction), cell_of(c)),
                forall|k: int| 0 <= k < targets@.len() ==> target_cell(#[trigger] targets@[k]) != cell_of(c),
            ensures
                j <= targets@.len(),
                targets@ == old(targets)@,
                forall|k: int| 0 <= k < j ==> key_lt(self.key_of(#[trigger] targets@[k]), key_c),
                j < targets@.len() ==> key_lt(key_c, self.key_of(targets@[j as int])),
            decreases targets@.len() - j,
        {
            let t = targets[j];
            let kt = self.target_key((t.0, t.1));
            let before = kc.0 < kt.0 || (kc.0 == kt.0 && (kc.1 < kt.1 || (kc.1 == kt.1 && kc.2 < kt.2)));
            proof {
                assert(self.key_of(t) == scan_key(pos_of(*self), cell_of(self.last_direction), cell_of((t.0, t.1))));
                assert(before == key_lt(key_c, self.key_of(t)));
            }
            if before {
                break;
            }
            proof {
                lemma_key_lt_total(self.key_of(t), key_c);
                if self.key_of(t) == key_c {
                    lemma_key_injective(pos_of(*self), cell_of(self.last_direction), target_cell(t), cell_of(c));
                }
            }
            j = j + 1;
        }
        let ghost old_t = targets@;
        let ghost idx = j as int;
        proof {
            if j < old_t.len() {
                let t = old_t[idx];
                assert(self.key_of(t) == scan_key(pos_of(*self), cell_of(self.last_direction), cell_of((t.0, t.1))));
                assert(key_lt(key_c, self.key_of(old_t[idx])));
            }
        }
        let entry = (c.0, c.1, kc.0 as i32);
        targets.insert(j, entry);
        proof {
            assert(self.key_of(entry) == key_c);
            assert forall|a: int, b: int|
                0 <= a < b < targets@.len() implies key_lt(self.key_of(#[trigger] targets@[a]), self.key_of(#[trigger] targets@[b])) by {
                if b < idx {
                    assert(targets@[a] == old_t[a] && targets@[b] == old_t[b]);
                } else if b == idx {
                    assert(targets@[a] == old_t[a]);
                } else if a == idx {
                    assert(targets@[b] == old_t[b - 1]);
                    if b - 1 > idx {
                        lemma_key_lt_trans(key_c, self.key_of(old_t[idx]), self.key_of(old_t[b - 1]));
                    }
                } else if a < idx {
                    assert(targets@[a] == old_t[a] && targets@[b] == old_t[b - 1]);
                    if a < b - 1 {
                    } else {
                        assert(a == b - 1);
                    }
                } else {
                    assert(targets@[a] == old_t[a - 1] && targets@[b] == old_t[b - 1]);
                }
            }
            assert forall|k: int| 0 <= k < targets@.len() implies bounded((#[trigger] targets@[k]).0 as int) && bounded(targets@[k].1 as int) by {
                if k < idx {
                    assert(targets@[k] == old_t[k]);
                } else if k > idx {
                    assert(targets@[k] == old_t[k - 1]);
                }
            }
        }
        j
    }

    /// The sector centers worth scanning.
    fn candidate_sectors(&self, grid: &Grid) -> (cands: CellSet)
        requires
            scan_bounds(grid.valid_coordinates@, *self),
        ensures
            forall|c: (int, int)| #[trigger] cands@.contains(c) <==> is_target(grid.valid_coordinates@, self.sector_size as int, c),
            forall|c: (int, int)| #[trigger] cands@.contains(c) ==> bounded(c.0) && bounded(c.1),
            cands.cells().no_duplicates(),
    {
        let g = &grid.valid_coordinates;
        let ghost gs = g@;
        let ghost s = self.sector_size as int;
        let n = g.len();
        proof {
            g.lemma_cells();
        }
        let mut centers = CellSet::new();
        let mut i: usize = 0;
        while i < n
            invariant
                n == g.cells().len(),
                i <= n,
                gs == g@,
                s == self.sector_size,
                scan_bounds(gs, *self),
                forall|k: int| 0 <= k < n ==> gs.contains(cell_of(#[trigger] g.cells()[k])),
                forall|c: (int, int)| #[trigger] centers@.contains(c) ==> bounded(c.0) && bounded(c.1),
                forall|c: (int, int)|
                    #[trigger] centers@.contains(c) <==> exists|k: int, nb: (int, int)|
                        0 <= k < i && #[trigger] crate::systems::network::is_neighbour(cell_of(g.cells()[k]), nb) && !gs.contains(nb) && sector_pair(nb, s) == c,
            decreases n - i,
        {
            let v = g.at(i);
            proof {
                assert(small(v.0 as int) && small(v.1 as int));
            }
            let ghost before = centers@;
            self.add_frontier_center(g, &mut centers, (v.0 + 1, v.1));
            self.add_frontier_center(g, &mut centers, (v.0 - 1, v.1));
            self.add_frontier_center(g, &mut centers, (v.0, v.1 + 1));
            self.add_frontier_center(g, &mut centers, (v.0, v.1 - 1));
            proof {
                let cv = cell_of(v);
                assert(cell_of(g.cells()[i as int]) == cv);
                assert forall|c: (int, int)|
                    #[trigger] centers@.contains(c) <==> exists|k: int, nb: (int, int)|
                        0 <= k < i + 1 && #[trigger] crate::systems::network::is_neighbour(cell_of(g.cells()[k]), nb) && !gs.contains(nb) && sector_pair(nb, s) == c by {
                    if centers@.contains(c) && !before.contains(c) {
                        if !gs.contains((cv.0 + 1, cv.1)) && sector_pair((cv.0 + 1, cv.1), s) == c {
                            assert(crate::systems::network::is_neighbour(cell_of(g.cells()[i as int]), (cv.0 + 1, cv.1)));
                        } else if !gs.contains((cv.0 - 1, cv.1)) && sector_pair((cv.0 - 1, cv.1), s) == c {
                            assert(crate::systems::network::is_neighbour(cell_of(g.cells()[i as int]), (cv.0 - 1, cv.1)));
                        } else if !gs.contains((cv.0, cv.1 + 1)) && sector_pair((cv.0, cv.1 + 1), s) == c {
                            assert(crate::systems::network::is_neighbour(cell_of(g.cells()[i as int]), (cv.0, cv.1 + 1)));
                        } else {
                            assert(crate::systems::network::is_neighbour(cell_of(g.cells()[i as int]), (cv.0, cv.1 - 1)));
                        }
                    }
                    if exists|k: int, nb: (int, int)|
                        0 <= k < i + 1 && #[trigger] crate::systems::network::is_neighbour(cell_of(g.cells()[k]), nb) && !gs.contains(nb) && sector_pair(nb, s) == c {
                        let (k, nb) = choose|k: int, nb: (int, int)|
                            0 <= k < i + 1 && #[trigger] crate::systems::network::is_neighbour(cell_of(g.cells()[k]), nb) && !gs.contains(nb) && sector_pair(nb, s) == c;
                        if k < i {
                            assert(before.contains(c));
                        }
                    }
                }
            }
            i = i + 1;
        }
        proof {
            assert forall|c: (int, int)|
                centers@.contains(c) <==> exists|nb: (int, int)|
                    #[trigger] frontier_cell(gs, nb) && (sector_coord(nb.0, s), sector_coord(nb.1, s)) == c by {
                if centers@.contains(c) {
                    let (k, nb) = choose|k: int, nb: (int, int)|
                        0 <= k < n && #[trigger] crate::systems::network::is_neighbour(cell_of(g.cells()[k]), nb) && !gs.contains(nb) && sector_pair(nb, s) == c;
                    assert(gs.contains(cell_of(g.cells()[k])));
                    assert(frontier_cell(gs, nb));
                }
                if exists|nb: (int, int)|
                    #[trigger] frontier_cell(gs, nb) && (sector_coord(nb.0, s), sector_coord(nb.1, s)) == c {
                    let nb = choose|nb: (int, int)|
                        #[trigger] frontier_cell(gs, nb) && (sector_coord(nb.0, s), sector_coord(nb.1, s)) == c;
                    let v = if gs.contains((nb.0 - 1, nb.1)) {
                        (nb.0 - 1, nb.1)
                    } else if gs.contains((nb.0 + 1, nb.1)) {
                        (nb.0 + 1, nb.1)
                    } else if gs.contains((nb.0, nb.1 - 1)) {
                        (nb.0, nb.1 - 1)
                    } else {
                        (nb.0, nb.1 + 1)
                    };
                    g.lemma_cells();
                    let k = choose|k: int| 0 <= k < g.cells().len() && cell_of(#[trigger] g.cells()[k]) == v;
                    assert(crate::systems::network::is_neighbour(cell_of(g.cells()[k]), nb));
                }
            }
        }
        let m = centers.len();
        proof {
            centers.lemma_cells();
        }
        let mut out = CellSet::new();
        let mut j: usize = 0;
        while j < m
            invariant
                m == centers.cells().len(),
                j <= m,
                s == self.sector_size,
                scan_bounds(gs, *self),
                gs == grid.valid_coordinates@,
                forall|k: int| 0 <= k < m ==> centers@.contains(cell_of(#[trigger] centers.cells()[k])),
                forall|c: (int, int)| #[trigger] centers@.contains(c) ==> bounded(c.0) && bounded(c.1),
                forall|c: (int, int)|
                    #[trigger] out@.contains(c) <==> (exists|k: int| 0 <= k < j && cell_of(#[trigger] centers.cells()[k]) == c) && !sector_explored(gs, c, s),
                forall|c: (int, int)| #[trigger] out@.contains(c) ==> centers@.contains(c),
            decreases m - j,
        {
            let c = centers.at(j);
            let explored = self.is_sector_fully_explored(c.0, c.1, grid);
            if !explored {
                out.insert(c);
            }
            proof {
                assert forall|d: (int, int)|
                    #[trigger] out@.contains(d) <==> (exists|k: int| 0 <= k < j + 1 && cell_of(#[trigger] centers.cells()[k]) == d) && !sector_explored(gs, d, s) by {
                    if exists|k: int| 0 <= k < j + 1 && cell_of(#[trigger] centers.cells()[k]) == d {
                        let k = choose|k: int| 0 <= k < j + 1 && cell_of(#[trigger] centers.cells()[k]) == d;
                        if k == j {
                            assert(d == cell_of(c));
                        }
                    }
                }
            }
            j = j + 1;
        }
        proof {
            centers.lemma_cells();
            out.lemma_cells();
            assert forall|c: (int, int)| #[trigger] out@.contains(c) <==> is_target(gs, s, c) by {
                if is_target(gs, s, c) {
                    assert(centers@.contains(c));
                    let k = choose|k: int| 0 <= k < centers.cells().len() && cell_of(#[trigger] centers.cells()[k]) == c;
                }
            }
        }
        let _ = out.len();
        out
    }

    /// Adds the sector center of `nb` when `nb` is hidden.
    fn add_frontier_center(&self, g: &CellSet, centers: &mut CellSet, nb: (i32, i32))
        requires
            -0x2000_0001 < nb.0 < 0x2000_0001 && -0x2000_0001 < nb.1 < 0x2000_0001,
            0 < self.sector_size < 0x1000,
            forall|c: (int, int)| #[trigger] old(centers)@.contains(c) ==> bounded(c.0) && bounded(c.1),
        ensures
            final(centers)@ == if g@.contains(cell_of(nb)) {
                old(centers)@
            } else {
                old(centers)@.insert(sector_pair(cell_of(nb), self.sector_size as int))
            },
            forall|c: (int, int)| #[trigger] final(centers)@.contains(c) ==> bounded(c.0) && bounded(c.1),
    {
        if !g.contains(&nb) {
            let c = self.to_sector_center(nb.0, nb.1);
            proof {
                assert(abs(c.0 - nb.0) <= self.sector_size);
            }
            centers.insert(c);
        }
    }

    /// Picks the next sector: the first target. Remembers its direction and
    /// returns its cells, row by row, and its distance.
    pub fn find_next_cluster(&mut self, grid: &Grid) -> (r: Option<(Vec<(i32, i32)>, i32)>)
        requires
            scan_bounds(grid.valid_coordinates@, *old(self)),
        ensures
            final(self).position == old(self).position,
            final(self).sector_size == old(self).sector_size,
            final(self).current_target_distance == old(self).current_target_distance,
            r is None <==> !exists|c: (int, int)| is_target(grid.valid_coordinates@, old(self).sector_size as int, c),
            r is None ==> final(self).last_direction == old(self).last_direction,
            r matches Some((cluster, distance)) ==> {
                let t = (final(self).last_direction.0 + old(self).position.x, final(self).last_direction.1 + old(self).position.y);
                &&& is_target(grid.valid_coordinates@, old(self).sector_size as int, t)
                &&& forall|c: (int, int)| is_target(grid.valid_coordinates@, old(self).sector_size as int, c) && c != t
                    ==> key_lt(scan_key(pos_of(*old(self)), cell_of(old(self).last_direction), t), scan_key(pos_of(*old(self)), cell_of(old(self).last_direction), c))
                &&& distance == chebyshev(t, pos_of(*old(self)))
                &&& cluster@ == rect_cells(t.0, t.1, half_size(old(self).sector_size as int), half_size(old(self).sector_size as int))
            },
    {
        let targets = self.find_exploration_targets(grid);
        if targets.len() == 0 {
            proof {
                assert forall|c: (int, int)| !is_target(grid.valid_coordinates@, old(self).sector_size as int, c) by {}
            }
            return None;
        }
        let t = targets[0];
        proof {
            assert(is_target(grid.valid_coordinates@, self.sector_size as int, target_cell(t))) by {
                assert(target_cell(targets@[0]) == target_cell(t));
            }
            assert forall|c: (int, int)| is_target(grid.valid_coordinates@, old(self).sector_size as int, c) && c != target_cell(t)
                implies key_lt(self.key_of(t), scan_key(pos_of(*old(self)), cell_of(old(self).last_direction), c)) by {
                let j = choose|j: int| 0 <= j < targets@.len() && target_cell(#[trigger] targets@[j]) == c;
                assert(j != 0);
                assert(key_lt(self.key_of(targets@[0]), self.key_of(targets@[j])));
            }
            assert(bounded(t.0 as int) && bounded(t.1 as int)) by {
                assert(is_target(grid.valid_coordinates@, self.sector_size as int, target_cell(t)));
                lemma_target_bounded(grid.valid_coordinates@, self.sector_size as int, target_cell(t));
            }
        }
        let half = self.sector_size / 2;
        self.last_direction = (t.0 - self.position.x, t.1 - self.position.y);
        let cluster = area_cells(t.0, t.1, half, half);
        Some((cluster, t.2))
    }
}

/// The sector center of a cell.
pub open spec fn sector_pair(nb: (int, int), s: int) -> (int, int) {
    (sector_coord(nb.0, s), sector_coord(nb.1, s))
}

/// `c` is among the first `n` cells of `s`.
pub open spec fn in_prefix(s: Seq<(i32, i32)>, n: int, c: (int, int)) -> bool {
    exists|k: int| 0 <= k < n && cell_of(#[trigger] s[k]) == c
}

/// `c` is the cell of one of the targets.
pub open spec fn listed(t: Seq<(i32, i32, i32)>, c: (int, int)) -> bool {
    exists|j: int| 0 <= j < t.len() && target_cell(#[trigger] t[j]) == c
}

/// The cell of a target.
pub open spec fn target_cell(t: (i32, i32, i32)) -> (int, int) {
    (t.0 as int, t.1 as int)
}

/// The scanner's cell.
pub open spec fn pos_of(st: ScanState) -> (int, int) {
    (st.position.x as int, st.position.y as int)
}

/// Targets lie within the handled bounds.
proof fn lemma_target_bounded(grid: Set<(int, int)>, s: int, c: (int, int))
    requires
        forall|x: (int, int)| #[trigger] grid.contains(x) ==> small(x.0) && small(x.1),
        0 < s < 0x1000,
        is_target(grid, s, c),
    ensures
        bounded(c.0) && bounded(c.1),
{
    let nb = choose|nb: (int, int)| #[trigger] frontier_cell(grid, nb) && (sector_coord(nb.0, s), sector_coord(nb.1, s)) == c;
    assert(-0x2000_0001 < nb.0 < 0x2000_0001 && -0x2000_0001 < nb.1 < 0x2000_0001) by {
        if grid.contains((nb.0 - 1, nb.1)) {
        } else if grid.contains((nb.0 + 1, nb.1)) {
        } else if grid.contains((nb.0, nb.1 - 1)) {
        } else {
            assert(grid.contains((nb.0, nb.1 + 1)));
        }
    }
    lemma_round_div_bound(nb.0, s);
    lemma_round_div_bound(nb.1, s);
}

/// `sector_coord` on machine integers.
fn sector_coord_exec(x: i32, s: i32) -> (r: i32)
    requires
        bounded(x as int),
        0 < s < 0x1000,
    ensures
        r == sector_coord(x as int, s as int),
        abs(r - x) <= s,
{
    let xx = x as i64;
    let ss = s as i64;
    assert(-0x4000_0000 < xx < 0x4000_0000 && 0 < ss < 0x1000);
    let q: i64 = if xx >= 0 {
        (2 * xx + ss) / (2 * ss)
    } else {
        -((-2 * xx + ss) / (2 * ss))
    };
    proof {
        assert(q == round_div(x as int, s as int));
        lemma_round_div_bound(x as int, s as int);
    }
    (q * ss) as i32
}

proof fn lemma_round_div_bound(x: int, s: int)
    requires
        bounded(x),
        0 < s < 0x1000,
    ensures
        abs(round_div(x, s) * s - x) <= s,
{
    let q = round_div(x, s);
    if x >= 0 {
        let a = 2 * x + s;
        let b = 2 * s;
        assert(b * q <= a < b * q + b) by (nonlinear_arith)
            requires
                q == a / b,
                b > 0,
        ;
        assert(q * s <= x + s && q * s >= x - s) by (nonlinear_arith)
            requires
                b * q <= a < b * q + b,
                a == 2 * x + s,
                b == 2 * s,
                s > 0,
        ;
    } else {
        let a = -2 * x + s;
        let b = 2 * s;
        let p = a / b;
        assert(b * p <= a < b * p + b) by (nonlinear_arith)
            requires
                p == a / b,
                b > 0,
        ;
        assert(p * s <= -x + s && p * s >= -x - s) by (nonlinear_arith)
            requires
                b * p <= a < b * p + b,
                a == -2 * x + s,
                b == 2 * s,
                s > 0,
        ;
        assert(q * s == -(p * s)) by (nonlinear_arith)
            requires
                q == -p,
        ;
    }
}

/// The cell that follows `(x, y)` going clockwise (north is `+y`, east is
/// `+x`) around the square ring of Chebyshev radius `r` about the origin:
/// east along the top, down the east side, west along the bottom, up the
/// west side.
pub open spec fn next_clockwise(x: int, y: int, r: int) -> (int, int) {
    if y == r && x < r {
        (x + 1, y)
    } else if x == r && y > -r {
        (x, y - 1)
    } else if y == -r && x > -r {
        (x - 1, y)
    } else {
        (x, y + 1)
    }
}

/// The ring position counts clockwise steps from north: the cell straight
/// north is at 0, every position lies in `0..8r`, and each clockwise step
/// around the ring adds one, up to the cell just west of north, after which
/// the walk is back at north.
pub proof fn lemma_ring_pos_counts_clockwise_steps(x: int, y: int, r: int)
    requires
        r > 0,
        chebyshev((x, y), (0, 0)) == r,
    ensures
        ring_pos(0, r, r) == 0,
        0 <= ring_pos(x, y, r) < 8 * r,
        chebyshev(next_clockwise(x, y, r), (0, 0)) == r,
        (x, y) != (-1int, r) ==> ring_pos(next_clockwise(x, y, r).0, next_clockwise(x, y, r).1, r)
            == ring_pos(x, y, r) + 1,
        (x, y) == (-1int, r) ==> next_clockwise(x, y, r) == (0int, r),
{
}

/// Scaling a ring point scales its position.
proof fn lemma_ring_pos_scales(x: int, y: int, r: int, k: int)
    requires
        k > 0,
        r > 0,
        chebyshev((x, y), (0, 0)) == r,
    ensures
        ring_pos(k * x, k * y, k * r) == k * ring_pos(x, y, r),
{
    assert((k * y == k * r) == (y == r)) by (nonlinear_arith)
        requires
            k > 0,
    ;
    assert((k * x == k * r) == (x == r)) by (nonlinear_arith)
        requires
            k > 0,
    ;
    assert((k * y == -(k * r)) == (y == -r)) by (nonlinear_arith)
        requires
            k > 0,
    ;
    assert((k * x == -(k * r)) == (x == -r)) by (nonlinear_arith)
        requires
            k > 0,
    ;
    assert((k * x >= 0) == (x >= 0)) by (nonlinear_arith)
        requires
            k > 0,
    ;
    assert(k * (2 * r - y) == 2 * (k * r) - k * y) by (nonlinear_arith);
    assert(k * (4 * r - x) == 4 * (k * r) - k * x) by (nonlinear_arith);
    assert(k * (6 * r + y) == 6 * (k * r) + k * y) by (nonlinear_arith);
    assert(k * (8 * r + x) == 8 * (k * r) + k * x) by (nonlinear_arith);
}

/// How far clockwise the vector `v` lies from the direction `dir` (the zero
/// direction read as north), as a share of a full turn measured along the
/// square rings: both are placed on their rings by their clockwise steps from
/// north, brought to a common scale, and the turn from `dir` to `v` is taken
/// in `0..8 * |v| * |dir|`.
pub open spec fn clockwise_turn(dir: (int, int), v: (int, int)) -> int {
    let r = norm_dir(dir);
    let m = chebyshev(r, (0, 0));
    let d = chebyshev(v, (0, 0));
    let a = ring_pos(v.0, v.1, d) * m - ring_pos(r.0, r.1, m) * d;
    if a >= 0 {
        a
    } else {
        a + 8 * d * m
    }
}

/// The scanning order: a nearer sector comes first; among sectors equally far
/// from the scanner, the one a smaller clockwise turn from the last
/// direction comes first.
pub proof fn lemma_scan_order(pos: (int, int), dir: (int, int), c1: (int, int), c2: (int, int))
    ensures
        chebyshev(c1, pos) < chebyshev(c2, pos) ==> key_lt(scan_key(pos, dir, c1), scan_key(pos, dir, c2)),
        chebyshev(c1, pos) == chebyshev(c2, pos) > 0 ==> (key_lt(
            scan_key(pos, dir, c1),
            scan_key(pos, dir, c2),
        ) <==> clockwise_turn(dir, (c1.0 - pos.0, c1.1 - pos.1)) < clockwise_turn(
            dir,
            (c2.0 - pos.0, c2.1 - pos.1),
        )),
{
    let d = chebyshev(c1, pos);
    if d == chebyshev(c2, pos) && d > 0 {
        let v1 = (c1.0 - pos.0, c1.1 - pos.1);
        let v2 = (c2.0 - pos.0, c2.1 - pos.1);
        let r = norm_dir(dir);
        let m = chebyshev(r, (0, 0));
        assert(m > 0);
        assert(chebyshev(v1, (0, 0)) == d && chebyshev(v2, (0, 0)) == d);
        lemma_ring_pos_counts_clockwise_steps(v1.0, v1.1, d);
        lemma_ring_pos_counts_clockwise_steps(v2.0, v2.1, d);
        lemma_ring_pos_counts_clockwise_steps(r.0, r.1, m);
        lemma_ring_pos_scales(r.0, r.1, m, d);
        assert(r.0 * d == d * r.0 && r.1 * d == d * r.1 && m * d == d * m) by (nonlinear_arith);
        let q = ring_pos(r.0, r.1, m);
        assert(ring_pos(r.0 * d, r.1 * d, m * d) == d * q);
        let p1 = ring_pos(v1.0, v1.1, d);
        let p2 = ring_pos(v2.0, v2.1, d);
        let a1 = p1 * m - q * d;
        let a2 = p2 * m - q * d;
        assert(d * q == q * d) by (nonlinear_arith);
        assert(a1 - a2 == (p1 - p2) * m) by (nonlinear_arith)
            requires
                a1 == p1 * m - q * d,
                a2 == p2 * m - q * d,
        ;
        let k1 = scan_key(pos, dir, c1);
        let k2 = scan_key(pos, dir, c2);
        assert(k1 == (d, if p1 * m >= d * q { 0int } else { 1int }, p1));
        assert(k2 == (d, if p2 * m >= d * q { 0int } else { 1int }, p2));
        assert((p1 * m >= d * q) == (a1 >= 0));
        assert((p2 * m >= d * q) == (a2 >= 0));
        let t1 = clockwise_turn(dir, v1);
        let t2 = clockwise_turn(dir, v2);
        assert(t1 == if a1 >= 0 { a1 } else { a1 + 8 * d * m });
        assert(t2 == if a2 >= 0 { a2 } else { a2 + 8 * d * m });
        assert((p1 - p2) * m < 8 * d * m) by (nonlinear_arith)
            requires
                p1 - p2 < 8 * d,
                m > 0,
        ;
        assert((p2 - p1) * m < 8 * d * m) by (nonlinear_arith)
            requires
                p2 - p1 < 8 * d,
                m > 0,
        ;
        assert((p1 < p2) == ((p1 - p2) * m < 0)) by (nonlinear_arith)
            requires
                m > 0,
        ;
        assert((p2 - p1) * m == -((p1 - p2) * m)) by (nonlinear_arith);
        if a1 >= 0 && a2 < 0 {
            assert(key_lt(k1, k2));
            assert(t1 < t2);
        } else if a1 < 0 && a2 >= 0 {
            assert(!key_lt(k1, k2));
            assert(!(t1 < t2));
        } else {
            assert(key_lt(k1, k2) == (p1 < p2));
            assert((t1 < t2) == (a1 < a2));
        }
    }
}

/// The sector of a coordinate is the nearest multiple of the sector size,
/// a tie going away from zero: it is a multiple of the size, lies within half
/// a size of the coordinate, and at exactly half a size it is the one farther
/// from zero.
pub proof fn lemma_sector_coord_nearest(x: int, s: int)
    requires
        s > 0,
    ensures
        sector_coord(x, s) % s == 0,
        -s <= 2 * (x - sector_coord(x, s)) <= s,
        2 * (x - sector_coord(x, s)) == s ==> x < 0,
        2 * (x - sector_coord(x, s)) == -s ==> x >= 0,
{
    let q = round_div(x, s);
    assert(sector_coord(x, s) == q * s);
    vstd::arithmetic::div_mod::lemma_mod_multiples_basic(q, s);
    if x >= 0 {
        let a = 2 * x + s;
        vstd::arithmetic::div_mod::lemma_fundamental_div_mod(a, 2 * s);
        assert(q == a / (2 * s));
        assert(0 <= a % (2 * s) < 2 * s);
        assert(a == 2 * s * q + a % (2 * s));
        assert(2 * s * q == 2 * (q * s)) by (nonlinear_arith);
    } else {
        let a = -2 * x + s;
        vstd::arithmetic::div_mod::lemma_fundamental_div_mod(a, 2 * s);
        let q0 = a / (2 * s);
        assert(q == -q0);
        assert(0 <= a % (2 * s) < 2 * s);
        assert(a == 2 * s * q0 + a % (2 * s));
        assert(2 * s * q0 == -2 * (q * s)) by (nonlinear_arith)
            requires
                q == -q0,
        ;
    }
}

/// `ring_pos` on machine integers.
fn ring_pos_exec(x: i128, y: i128, r: i128) -> (p: i128)
    requires
        -0x1_0000_0000_0000_0000 < x < 0x1_0000_0000_0000_0000,
        -0x1_0000_0000_0000_0000 < y < 0x1_0000_0000_0000_0000,
        0 <= r < 0x1_0000_0000_0000_0000,
    ensures
        p == ring_pos(x as int, y as int, r as int),
{
    if y == r && x >= 0 {
        x
    } else if x == r {
        2 * r - y
    } else if y == -r {
        4 * r - x
    } else if x == -r {
        6 * r + y
    } else {
        8 * r + x
    }
}

/// Distinct points of one ring have distinct positions.
proof fn lemma_ring_pos_injective(a: (int, int), b: (int, int), r: int)
    requires
        chebyshev(a, (0, 0)) == r,
        chebyshev(b, (0, 0)) == r,
        ring_pos(a.0, a.1, r) == ring_pos(b.0, b.1, r),
    ensures
        a == b,
{
}

/// Keys order targets strictly: irreflexive, transitive, and distinct cells
/// have distinct keys.
proof fn lemma_key_injective(pos: (int, int), dir: (int, int), a: (int, int), b: (int, int))
    requires
        scan_key(pos, dir, a) == scan_key(pos, dir, b),
    ensures
        a == b,
{
    let va = (a.0 - pos.0, a.1 - pos.1);
    let vb = (b.0 - pos.0, b.1 - pos.1);
    assert(chebyshev(a, pos) == chebyshev(va, (0, 0)));
    assert(chebyshev(b, pos) == chebyshev(vb, (0, 0)));
    lemma_ring_pos_injective(va, vb, chebyshev(a, pos));
}

proof fn lemma_key_lt_total(a: (int, int, int), b: (int, int, int))
    ensures
        a == b || key_lt(a, b) || key_lt(b, a),
        !(key_lt(a, b) && key_lt(b, a)),
        !key_lt(a, a),
{
}

proof fn lemma_key_lt_trans(a: (int, int, int), b: (int, int, int), c: (int, int, int))
    requires
        key_lt(a, b),
        key_lt(b, c),
    ensures
        key_lt(a, c),
{
}

} // verus!
