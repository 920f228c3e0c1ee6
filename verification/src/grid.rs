//! The cell grid: positions, the set of revealed cells, and the cell patterns
//! (disks and rectangles) used to reveal and occupy cells.
use vstd::prelude::*;

verus! {

/// A cell position on the grid.
#[derive(Clone, Copy, Debug, PartialEq, Eq, Structural)]
pub struct Position {
    pub x: i32,
    pub y: i32,
}

/// A grid cell named by its coordinates.
#[derive(Clone, Copy, Debug, PartialEq, Eq, Structural)]
pub struct GridCoordinates {
    pub grid_x: i32,
    pub grid_y: i32,
}

/// A request to reveal the cells within `radius` of a center.
#[derive(Clone, Copy, Debug, PartialEq, Eq, Structural)]
pub struct ExpandGridEvent {
    pub center_x: i32,
    pub center_y: i32,
    pub radius: i32,
}

/// A cell as a pair of mathematical integers.
pub open spec fn cell_of(c: (i32, i32)) -> (int, int) {
    (c.0 as int, c.1 as int)
}

/// A coordinate whose four neighbours are representable.
pub open spec fn inner(v: int) -> bool {
    i32::MIN < v < i32::MAX
}

/// Two cells share an edge.
pub open spec fn adjacent(a: (int, int), b: (int, int)) -> bool {
    ||| a.0 == b.0 && (a.1 - b.1 == 1 || b.1 - a.1 == 1)
    ||| a.1 == b.1 && (a.0 - b.0 == 1 || b.0 - a.0 == 1)
}

/// A set of cells; no cell occurs twice.
pub struct CellSet {
    cells: Vec<(i32, i32)>,
}

/// The cells of a sequence, as a set of integer pairs.
pub open spec fn cells_set(s: Seq<(i32, i32)>) -> Set<(int, int)> {
    s.map_values(|c: (i32, i32)| cell_of(c)).to_set()
}

impl View for CellSet {
    type V = Set<(int, int)>;

    closed spec fn view(&self) -> Set<(int, int)> {
        cells_set(self.cells@)
    }
}

impl CellSet {
    #[verifier::type_invariant]
    closed spec fn inv(self) -> bool {
        self.cells@.no_duplicates()
    }

    /// The cells in insertion order.
    pub closed spec fn cells(self) -> Seq<(i32, i32)> {
        self.cells@
    }

    proof fn lemma_view(s: Seq<(i32, i32)>)
        ensures
            forall|c: (int, int)|
                #![trigger cells_set(s).contains(c)]
                cells_set(s).contains(c) <==> exists|i: int|
                    0 <= i < s.len() && cell_of(#[trigger] s[i]) == c,
    {
        let m = s.map_values(|c: (i32, i32)| cell_of(c));
        assert forall|c: (int, int)| #![trigger m.to_set().contains(c)] m.to_set().contains(c)
            <==> exists|i: int| 0 <= i < s.len() && cell_of(#[trigger] s[i]) == c by {
            if m.to_set().contains(c) {
                let i = choose|i: int| 0 <= i < m.len() && m[i] == c;
                assert(cell_of(s[i]) == c);
            }
            if exists|i: int| 0 <= i < s.len() && cell_of(#[trigger] s[i]) == c {
                let i = choose|i: int| 0 <= i < s.len() && cell_of(#[trigger] s[i]) == c;
                assert(m[i] == c);
                assert(m.contains(c));
            }
        }
    }

    /// An empty set.
    pub fn new() -> (s: Self)
        ensures
            s@ == Set::<(int, int)>::empty(),
            s.cells().len() == 0,
    {
        let s = CellSet { cells: Vec::new() };
        proof {
            Self::lemma_view(s.cells@);
            assert(s@ =~= Set::<(int, int)>::empty());
        }
        s
    }

    /// Whether the cell is in the set.
    pub fn contains(&self, c: &(i32, i32)) -> (b: bool)
        ensures
            b == self@.contains(cell_of(*c)),
    {
        proof {
            Self::lemma_view(self.cells@);
        }
        let mut i: usize = 0;
        while i < self.cells.len()
            invariant
                i <= self.cells@.len(),
                forall|j: int| 0 <= j < i ==> self.cells@[j] != *c,
            decreases self.cells@.len() - i,
        {
            let d = self.cells[i];
            if d.0 == c.0 && d.1 == c.1 {
                proof {
                    Self::lemma_view(self.cells@);
                    assert(cell_of(self.cells@[i as int]) == cell_of(*c));
                }
                return true;
            }
            i = i + 1;
        }
        proof {
            if self@.contains(cell_of(*c)) {
                let j = choose|j: int| 0 <= j < self.cells@.len() && cell_of(self.cells@[j]) == cell_of(*c);
                assert(self.cells@[j] == *c);
            }
        }
        false
    }

    /// Adds the cell; returns whether it was absent.
    pub fn insert(&mut self, c: (i32, i32)) -> (added: bool)
        ensures
            added == !old(self)@.contains(cell_of(c)),
            final(self)@ == old(self)@.insert(cell_of(c)),
            final(self).cells() == if added {
                old(self).cells().push(c)
            } else {
                old(self).cells()
            },
    {
        if self.contains(&c) {
            proof {
                assert(old(self)@.insert(cell_of(c)) =~= old(self)@);
            }
            false
        } else {
            proof {
                use_type_invariant(&*self);
                Self::lemma_view(self.cells@);
            }
            let ghost s = self.cells@;
            let mut v: Vec<(i32, i32)> = Vec::new();
            std::mem::swap(&mut v, &mut self.cells);
            v.push(c);
            proof {
                assert forall|j: int| 0 <= j < s.len() implies s[j] != c by {
                    if s[j] == c {
                        assert(cell_of(s[j]) == cell_of(c));
                    }
                }
                assert(v@.no_duplicates()) by {
                    assert forall|i: int, j: int| 0 <= i < v@.len() && 0 <= j < v@.len() && i != j implies v@[i] != v@[j] by {
                        if i < s.len() && j < s.len() {
                            assert(v@[i] == s[i] && v@[j] == s[j]);
                        }
                    }
                }
            }
            self.cells = v;
            proof {
                Self::lemma_view(self.cells@);
                Self::lemma_view(s);
                assert(self@ =~= old(self)@.insert(cell_of(c))) by {
                    assert forall|d: (int, int)| #![trigger self@.contains(d)] self@.contains(d) implies old(self)@.insert(cell_of(c)).contains(d) by {
                        let i = choose|i: int| 0 <= i < self.cells@.len() && cell_of(self.cells@[i]) == d;
                        if i < s.len() {
                            assert(self.cells@[i] == s[i]);
                        }
                    }
                    assert forall|d: (int, int)| #![trigger old(self)@.insert(cell_of(c)).contains(d)] old(self)@.insert(cell_of(c)).contains(d) implies self@.contains(d) by {
                        if d == cell_of(c) {
                            assert(cell_of(self.cells@[s.len() as int]) == d);
                        } else {
                            let i = choose|i: int| 0 <= i < s.len() && cell_of(s[i]) == d;
                            assert(cell_of(self.cells@[i]) == d);
                        }
                    }
                }
            }
            true
        }
    }

    /// The number of cells.
    pub fn len(&self) -> (n: usize)
        ensures
            n == self@.len(),
            n == self.cells().len(),
            self@.finite(),
            self.cells().no_duplicates(),
    {
        proof {
            use_type_invariant(self);
            let m = self.cells@.map_values(|c: (i32, i32)| cell_of(c));
            assert(m.no_duplicates()) by {
                assert forall|i: int, j: int| 0 <= i < m.len() && 0 <= j < m.len() && i != j implies m[i] != m[j] by {
                    assert(self.cells@[i] != self.cells@[j]);
                }
            }
            m.unique_seq_to_set();
        }
        self.cells.len()
    }

    /// Whether the set is empty.
    pub fn is_empty(&self) -> (b: bool)
        ensures
            b == (self@.len() == 0),
            b == (self@ == Set::<(int, int)>::empty()),
    {
        let n = self.len();
        proof {
            Self::lemma_view(self.cells@);
            if n > 0 {
                assert(self@.contains(cell_of(self.cells@[0])));
            } else {
                assert(self@ =~= Set::<(int, int)>::empty());
            }
        }
        n == 0
    }

    /// The cell at a position of the insertion order.
    pub fn at(&self, i: usize) -> (c: (i32, i32))
        requires
            i < self.cells().len(),
        ensures
            c == self.cells()[i as int],
            self@.contains(cell_of(c)),
    {
        proof {
            Self::lemma_view(self.cells@);
        }
        self.cells[i]
    }

    /// A copy with the same cells in the same order.
    pub fn duplicate(&self) -> (r: CellSet)
        ensures
            r@ == self@,
            r.cells() == self.cells(),
    {
        proof {
            use_type_invariant(self);
        }
        let mut v: Vec<(i32, i32)> = Vec::new();
        let mut i: usize = 0;
        while i < self.cells.len()
            invariant
                i <= self.cells@.len(),
                v@ == self.cells@.take(i as int),
            decreases self.cells@.len() - i,
        {
            v.push(self.cells[i]);
            i = i + 1;
            proof {
                assert(v@ =~= self.cells@.take(i as int));
            }
        }
        proof {
            assert(v@ =~= self.cells@);
        }
        CellSet { cells: v }
    }

    /// Every element of the insertion order is in the set and back.
    pub proof fn lemma_cells(&self)
        ensures
            forall|i: int| 0 <= i < self.cells().len() ==> self@.contains(cell_of(#[trigger] self.cells()[i])),
            forall|c: (int, int)| #![trigger self@.contains(c)] self@.contains(c) ==> exists|i: int|
                0 <= i < self.cells().len() && cell_of(#[trigger] self.cells()[i]) == c,
    {
        Self::lemma_view(self.cells@);
        assert forall|i: int| 0 <= i < self.cells().len() implies self@.contains(cell_of(#[trigger] self.cells()[i])) by {
            assert(cell_of(self.cells@[i]) == cell_of(self.cells@[i]));
        }
        assert forall|c: (int, int)| #![trigger self@.contains(c)] self@.contains(c) implies exists|i: int|
            0 <= i < self.cells().len() && cell_of(#[trigger] self.cells()[i]) == c by {
            assert(cells_set(self.cells@).contains(c));
            let i = choose|i: int| 0 <= i < self.cells@.len() && cell_of(#[trigger] self.cells@[i]) == c;
            assert(self.cells()[i] == self.cells@[i]);
        }
    }
}

/// The revealed cells of the map.
pub struct Grid {
    pub valid_coordinates: CellSet,
}

/// The cells within Euclidean distance `r` of the center, row by row from the
/// lowest row, each row from its lowest column: the first `rows` rows.
pub open spec fn disk_rows(cx: int, cy: int, r: int, rows: int) -> Seq<(i32, i32)>
    decreases rows,
{
    if rows <= 0 {
        Seq::empty()
    } else {
        disk_rows(cx, cy, r, rows - 1) + disk_row(cx, cy, r, -r + rows - 1, 2 * r + 1)
    }
}

/// The first `cols` columns of row `dy` of the disk.
pub open spec fn disk_row(cx: int, cy: int, r: int, dy: int, cols: int) -> Seq<(i32, i32)>
    decreases cols,
{
    if cols <= 0 {
        Seq::empty()
    } else {
        let dx = -r + cols - 1;
        let prev = disk_row(cx, cy, r, dy, cols - 1);
        if dx * dx + dy * dy <= r * r {
            prev.push(((cx + dx) as i32, (cy + dy) as i32))
        } else {
            prev
        }
    }
}

/// The cells of the disk of radius `r` around the center, in scan order.
pub open spec fn disk_cells(cx: int, cy: int, r: int) -> Seq<(i32, i32)> {
    disk_rows(cx, cy, r, 2 * r + 1)
}

/// Half a length, truncated toward zero.
pub open spec fn half(v: i32) -> int {
    if v >= 0 {
        v / 2
    } else {
        -((-v) / 2)
    }
}

impl Grid {
    /// A grid with no revealed cell.
    pub fn new() -> (g: Self)
        ensures
            g.valid_coordinates@ == Set::<(int, int)>::empty(),
            g.valid_coordinates.cells().len() == 0,
    {
        Grid { valid_coordinates: CellSet::new() }
    }

    /// Reveals a cell; returns whether it was hidden.
    pub fn add_coordinate(&mut self, x: i32, y: i32) -> (added: bool)
        ensures
            added == !old(self).valid_coordinates@.contains((x as int, y as int)),
            final(self).valid_coordinates@ == old(self).valid_coordinates@.insert((x as int, y as int)),
    {
        self.valid_coordinates.insert((x, y))
    }

    /// The coordinates of a cell when it is revealed.
    pub fn grid_coordinates_at(&self, grid_x: i32, grid_y: i32) -> (r: Option<GridCoordinates>)
        ensures
            r == (if self.valid_coordinates@.contains((grid_x as int, grid_y as int)) {
                Some(GridCoordinates { grid_x, grid_y })
            } else {
                None::<GridCoordinates>
            }),
    {
        if self.valid_coordinates.contains(&(grid_x, grid_y)) {
            Some(GridCoordinates { grid_x, grid_y })
        } else {
            None
        }
    }

    /// The cells within Euclidean distance `radius` of the center, row by row.
    pub fn get_coordinates_in_radius(center_x: i32, center_y: i32, radius: i32) -> (out: Vec<(i32, i32)>)
        requires
            radius <= 2895,
            radius >= 0 ==> i32::MIN <= center_x - radius && center_x + radius <= i32::MAX
                && i32::MIN <= center_y - radius && center_y + radius <= i32::MAX,
        ensures
            out@ == disk_cells(center_x as int, center_y as int, radius as int),
            forall|c: (int, int)|
                (exists|i: int| 0 <= i < out@.len() && cell_of(#[trigger] out@[i]) == c) <==> (
                (c.0 - center_x) * (c.0 - center_x) + (c.1 - center_y) * (c.1 - center_y)
                    <= radius * radius && radius >= 0),
    {
        let mut out: Vec<(i32, i32)> = Vec::new();
        if radius < 0 {
            proof {
                assert(out@ =~= disk_cells(center_x as int, center_y as int, radius as int));
                assert forall|c: (int, int)| !((c.0 - center_x) * (c.0 - center_x) + (c.1 - center_y) * (c.1 - center_y) <= radius * radius && radius >= 0) by {}
            }
            return out;
        }
        let ghost cx = center_x as int;
        let ghost cy = center_y as int;
        let ghost r = radius as int;
        let mut dy: i32 = -radius;
        while dy <= radius
            invariant
                0 <= r <= 2895,
                r == radius,
                cx == center_x,
                cy == center_y,
                -r <= dy <= r + 1,
                i32::MIN <= cx - r && cx + r <= i32::MAX && i32::MIN <= cy - r && cy + r <= i32::MAX,
                out@ == disk_rows(cx, cy, r, dy + r),
            decreases r + 1 - dy,
        {
            let mut dx: i32 = -radius;
            let ghost base = out@;
            while dx <= radius
                invariant
                    0 <= r <= 2895,
                    r == radius,
                    cx == center_x,
                    cy == center_y,
                    -r <= dy <= r,
                    -r <= dx <= r + 1,
                    i32::MIN <= cx - r && cx + r <= i32::MAX && i32::MIN <= cy - r && cy + r <= i32::MAX,
                    base == disk_rows(cx, cy, r, dy + r),
                    out@ == base + disk_row(cx, cy, r, dy as int, dx + r),
                decreases r + 1 - dx,
            {
                proof {
                    assert(0 <= dx * dx <= 2895 * 2895) by (nonlinear_arith)
                        requires -2895 <= dx <= 2895;
                    assert(0 <= dy * dy <= 2895 * 2895) by (nonlinear_arith)
                        requires -2895 <= dy <= 2895;
                    assert(0 <= radius * radius <= 2895 * 2895) by (nonlinear_arith)
                        requires 0 <= radius <= 2895;
                }
                if dx * dx + dy * dy <= radius * radius {
                    out.push((center_x + dx, center_y + dy));
                }
                proof {
                    assert(out@ =~= base + disk_row(cx, cy, r, dy as int, dx + 1 + r));
                }
                dx = dx + 1;
            }
            proof {
                assert(out@ =~= disk_rows(cx, cy, r, dy + 1 + r));
            }
            dy = dy + 1;
        }
        proof {
            lemma_disk_membership(cx, cy, r);
        }
        out
    }
}

/// The first `cols` cells of row `dy` of a rectangle with column half-width `hx`.
pub open spec fn rect_row(cx: int, cy: int, hx: int, dy: int, cols: int) -> Seq<(i32, i32)>
    decreases cols,
{
    if cols <= 0 {
        Seq::empty()
    } else {
        rect_row(cx, cy, hx, dy, cols - 1).push(((cx - hx + cols - 1) as i32, (cy + dy) as i32))
    }
}

/// The first `rows` rows of a rectangle with half-widths `hx` and `hy`.
pub open spec fn rect_rows(cx: int, cy: int, hx: int, hy: int, rows: int) -> Seq<(i32, i32)>
    decreases rows,
{
    if rows <= 0 {
        Seq::empty()
    } else {
        rect_rows(cx, cy, hx, hy, rows - 1) + rect_row(cx, cy, hx, -hy + rows - 1, 2 * hx + 1)
    }
}

/// The cells `(cx + dx, cy + dy)` for `dy` in `-hy..=hy` and `dx` in
/// `-hx..=hx`, row by row.
pub open spec fn rect_cells(cx: int, cy: int, hx: int, hy: int) -> Seq<(i32, i32)> {
    rect_rows(cx, cy, hx, hy, 2 * hy + 1)
}

/// The cells of `cells` that are not in `known` and do not occur earlier in
/// `cells`, in order.
pub open spec fn newly_revealed(known: Set<(int, int)>, cells: Seq<(i32, i32)>) -> Seq<(i32, i32)>
    decreases cells.len(),
{
    if cells.len() == 0 {
        Seq::empty()
    } else {
        let prev = newly_revealed(known, cells.drop_last());
        if known.union(cells_set(cells.drop_last())).contains(cell_of(cells.last())) {
            prev
        } else {
            prev.push(cells.last())
        }
    }
}

impl Grid {
    /// Reveals every cell of `cells`; returns those that were hidden, in
    /// order and each once.
    pub fn reveal_cells(&mut self, cells: &Vec<(i32, i32)>) -> (revealed: Vec<(i32, i32)>)
        ensures
            final(self).valid_coordinates@ == old(self).valid_coordinates@.union(cells_set(cells@)),
            revealed@ == newly_revealed(old(self).valid_coordinates@, cells@),
    {
        let ghost known = self.valid_coordinates@;
        let mut revealed: Vec<(i32, i32)> = Vec::new();
        let mut i: usize = 0;
        proof {
            assert(cells_set(cells@.take(0)) =~= Set::<(int, int)>::empty());
            assert(known.union(Set::<(int, int)>::empty()) =~= known);
            assert(cells@.take(0) =~= Seq::<(i32, i32)>::empty());
        }
        while i < cells.len()
            invariant
                i <= cells@.len(),
                known == old(self).valid_coordinates@,
                self.valid_coordinates@ == known.union(cells_set(cells@.take(i as int))),
                revealed@ == newly_revealed(known, cells@.take(i as int)),
            decreases cells@.len() - i,
        {
            let (x, y) = cells[i];
            proof {
                assert(cells@.take(i + 1).drop_last() =~= cells@.take(i as int));
                assert(cells@.take(i + 1).last() == cells@[i as int]);
                lemma_cells_set_push(cells@.take(i as int), cells@[i as int]);
                assert(cells@.take(i as int).push(cells@[i as int]) =~= cells@.take(i + 1));
            }
            if self.add_coordinate(x, y) {
                revealed.push((x, y));
            }
            proof {
                assert(self.valid_coordinates@ =~= known.union(cells_set(cells@.take(i + 1))));
            }
            i = i + 1;
        }
        proof {
            assert(cells@.take(cells@.len() as int) =~= cells@);
        }
        revealed
    }

    /// Reveals the cells within `radius` of the center; returns those that
    /// were hidden.
    pub fn expand_around(&mut self, center_x: i32, center_y: i32, radius: i32) -> (revealed: Vec<
        (i32, i32),
    >)
        requires
            radius <= 2895,
            radius >= 0 ==> i32::MIN <= center_x - radius && center_x + radius <= i32::MAX
                && i32::MIN <= center_y - radius && center_y + radius <= i32::MAX,
        ensures
            final(self).valid_coordinates@ == old(self).valid_coordinates@.union(
                cells_set(disk_cells(center_x as int, center_y as int, radius as int)),
            ),
            revealed@ == newly_revealed(
                old(self).valid_coordinates@,
                disk_cells(center_x as int, center_y as int, radius as int),
            ),
            no_repeats(revealed@),
            forall|c: (int, int)|
                #![trigger cells_set(revealed@).contains(c)]
                cells_set(revealed@).contains(c) <==> (radius >= 0 && (c.0 - center_x) * (c.0
                    - center_x) + (c.1 - center_y) * (c.1 - center_y) <= radius * radius
                    && !old(self).valid_coordinates@.contains(c)),
    {
        let cells = Grid::get_coordinates_in_radius(center_x, center_y, radius);
        let revealed = self.reveal_cells(&cells);
        proof {
            lemma_revealed_exactly_once(old(self).valid_coordinates@, cells@);
            assert forall|c: (int, int)| #![trigger cells_set(revealed@).contains(c)]
                cells_set(revealed@).contains(c) <==> (radius >= 0 && (c.0 - center_x) * (c.0
                - center_x) + (c.1 - center_y) * (c.1 - center_y) <= radius * radius
                && !old(self).valid_coordinates@.contains(c)) by {
                let f = |c: (i32, i32)| cell_of(c);
                if cells_set(cells@).contains(c) {
                    let i = choose|i: int| 0 <= i < cells@.map_values(f).len() && cells@.map_values(f)[i] == c;
                    assert(cell_of(cells@[i]) == c);
                }
                if exists|i: int| 0 <= i < cells@.len() && cell_of(#[trigger] cells@[i]) == c {
                    let i = choose|i: int| 0 <= i < cells@.len() && cell_of(#[trigger] cells@[i]) == c;
                    assert(cells@.map_values(f)[i] == c);
                    assert(cells_set(cells@).contains(c));
                }
            }
        }
        revealed
    }

    /// The starting map: the five by five cells around the origin, all
    /// revealed; with them in the order they are to be shown.
    pub fn initial() -> (r: (Grid, Vec<(i32, i32)>))
        ensures
            r.0.valid_coordinates@ == cells_set(rect_cells(0, 0, 2, 2)),
            r.1@ == rect_cells(0, 0, 2, 2),
    {
        let mut grid = Grid::new();
        let cells = area_cells(0, 0, 2, 2);
        let _ = grid.reveal_cells(&cells);
        proof {
            assert(Set::<(int, int)>::empty().union(cells_set(cells@)) =~= cells_set(cells@));
        }
        (grid, cells)
    }
}

/// Revealing cells that are all revealed already reveals nothing.
pub proof fn lemma_reveal_again_reveals_nothing(known: Set<(int, int)>, cells: Seq<(i32, i32)>)
    requires
        cells_set(cells).subset_of(known),
    ensures
        newly_revealed(known, cells) == Seq::<(i32, i32)>::empty(),
    decreases cells.len(),
{
    if cells.len() > 0 {
        let init = cells.drop_last();
        lemma_cells_set_push(init, cells.last());
        assert(init.push(cells.last()) =~= cells);
        lemma_reveal_again_reveals_nothing(known, init);
    }
}

/// No cell occurs twice in the sequence.
pub open spec fn no_repeats(s: Seq<(i32, i32)>) -> bool {
    forall|i: int, j: int| 0 <= i < j < s.len() ==> cell_of(#[trigger] s[i]) != cell_of(#[trigger] s[j])
}

/// Revealing cells lists every cell that was hidden exactly once, and no
/// other: the listed cells are those of `cells` not in `known`, none twice.
pub proof fn lemma_revealed_exactly_once(known: Set<(int, int)>, cells: Seq<(i32, i32)>)
    ensures
        cells_set(newly_revealed(known, cells)) == cells_set(cells).difference(known),
        no_repeats(newly_revealed(known, cells)),
    decreases cells.len(),
{
    if cells.len() == 0 {
        assert(cells_set(cells) =~= Set::<(int, int)>::empty());
        assert(cells_set(newly_revealed(known, cells)) =~= Set::<(int, int)>::empty());
        assert(cells_set(cells).difference(known) =~= Set::<(int, int)>::empty());
    } else {
        let init = cells.drop_last();
        let last = cells.last();
        lemma_revealed_exactly_once(known, init);
        lemma_cells_set_push(init, last);
        assert(init.push(last) =~= cells);
        let prev = newly_revealed(known, init);
        if known.union(cells_set(init)).contains(cell_of(last)) {
            assert(cells_set(cells).difference(known) =~= cells_set(init).difference(known));
        } else {
            lemma_cells_set_push(prev, last);
            assert(cells_set(cells).difference(known) =~= cells_set(init).difference(known).insert(
                cell_of(last),
            ));
            let now = prev.push(last);
            assert forall|i: int, j: int| 0 <= i < j < now.len() implies cell_of(#[trigger] now[i])
                != cell_of(#[trigger] now[j]) by {
                if j == prev.len() {
                    assert(now[i] == prev[i]);
                    assert(prev.map_values(|c: (i32, i32)| cell_of(c))[i] == cell_of(prev[i]));
                    assert(cells_set(prev).contains(cell_of(prev[i])));
                } else {
                    assert(now[i] == prev[i] && now[j] == prev[j]);
                }
            }
        }
    }
}

/// Appending a cell adds it to the set of a sequence.
pub proof fn lemma_cells_set_push(s: Seq<(i32, i32)>, c: (i32, i32))
    ensures
        cells_set(s.push(c)) == cells_set(s).insert(cell_of(c)),
{
    let f = |c: (i32, i32)| cell_of(c);
    assert(s.push(c).map_values(f) =~= s.map_values(f).push(cell_of(c)));
    assert(s.map_values(f).push(cell_of(c)).to_set() =~= s.map_values(f).to_set().insert(cell_of(c))) by {
        assert forall|x: (int, int)| s.map_values(f).push(cell_of(c)).to_set().contains(x) <==> s.map_values(f).to_set().insert(cell_of(c)).contains(x) by {
            if s.map_values(f).push(cell_of(c)).contains(x) {
                let j = choose|j: int| 0 <= j < s.map_values(f).push(cell_of(c)).len() && s.map_values(f).push(cell_of(c))[j] == x;
                if j < s.len() {
                    assert(s.map_values(f)[j] == x);
                }
            }
            if s.map_values(f).contains(x) {
                let j = choose|j: int| 0 <= j < s.map_values(f).len() && s.map_values(f)[j] == x;
                assert(s.map_values(f).push(cell_of(c))[j] == x);
            }
            if x == cell_of(c) {
                assert(s.map_values(f).push(cell_of(c))[s.len() as int] == x);
            }
        }
    }
}

/// The cells of a rectangle around a center, row by row from the lowest row.
pub fn area_cells(center_x: i32, center_y: i32, half_x: i32, half_y: i32) -> (out: Vec<(i32, i32)>)
    requires
        half_x >= 0 ==> i32::MIN <= center_x - half_x && center_x + half_x <= i32::MAX,
        half_y >= 0 ==> i32::MIN <= center_y - half_y && center_y + half_y <= i32::MAX,
    ensures
        out@ == rect_cells(center_x as int, center_y as int, half_x as int, half_y as int),
{
    let mut out: Vec<(i32, i32)> = Vec::new();
    let ghost cx = center_x as int;
    let ghost cy = center_y as int;
    let ghost hx = half_x as int;
    let ghost hy = half_y as int;
    if half_y < 0 {
        proof {
            assert(out@ =~= rect_cells(cx, cy, hx, hy));
        }
        return out;
    }
    let mut dy: i64 = -(half_y as i64);
    while dy <= half_y as i64
        invariant
            hy == half_y,
            hx == half_x,
            cx == center_x,
            cy == center_y,
            hy >= 0,
            -hy <= dy <= hy + 1,
            half_x >= 0 ==> i32::MIN <= center_x - half_x && center_x + half_x <= i32::MAX,
            i32::MIN <= center_y - half_y && center_y + half_y <= i32::MAX,
            out@ == rect_rows(cx, cy, hx, hy, dy + hy),
        decreases hy + 1 - dy,
    {
        let ghost base = out@;
        if half_x >= 0 {
            let mut dx: i64 = -(half_x as i64);
            while dx <= half_x as i64
                invariant
                    hy == half_y,
                    hx == half_x,
                    cx == center_x,
                    cy == center_y,
                    hx >= 0,
                    -hy <= dy <= hy,
                    -hx <= dx <= hx + 1,
                    i32::MIN <= center_x - half_x && center_x + half_x <= i32::MAX,
                    i32::MIN <= center_y - half_y && center_y + half_y <= i32::MAX,
                    out@ == base + rect_row(cx, cy, hx, dy as int, dx + hx),
                decreases hx + 1 - dx,
            {
                out.push(((center_x as i64 + dx) as i32, (center_y as i64 + dy) as i32));
                proof {
                    assert(out@ =~= base + rect_row(cx, cy, hx, dy as int, dx + 1 + hx));
                }
                dx = dx + 1;
            }
        } else {
            proof {
                assert(rect_row(cx, cy, hx, dy as int, 2 * hx + 1) =~= Seq::<(i32, i32)>::empty());
                assert(out@ =~= base + rect_row(cx, cy, hx, dy as int, 2 * hx + 1));
            }
        }
        proof {
            assert(out@ =~= rect_rows(cx, cy, hx, hy, dy + 1 + hy));
        }
        dy = dy + 1;
    }
    out
}

/// Membership in a row prefix of the disk.
proof fn lemma_row_membership(cx: int, cy: int, r: int, dy: int, cols: int)
    requires
        0 <= cols <= 2 * r + 1,
        i32::MIN <= cx - r && cx + r <= i32::MAX,
        i32::MIN <= cy + dy <= i32::MAX,
    ensures
        forall|c: (int, int)|
            (exists|i: int| 0 <= i < disk_row(cx, cy, r, dy, cols).len() && cell_of(#[trigger] disk_row(cx, cy, r, dy, cols)[i]) == c) <==> (
            c.1 == cy + dy && -r <= c.0 - cx < -r + cols && (c.0 - cx) * (c.0 - cx) + dy * dy <= r * r),
    decreases cols,
{
    if cols > 0 {
        lemma_row_membership(cx, cy, r, dy, cols - 1);
        let prev = disk_row(cx, cy, r, dy, cols - 1);
        let cur = disk_row(cx, cy, r, dy, cols);
        let dx = -r + cols - 1;
        assert forall|c: (int, int)|
            (exists|i: int| 0 <= i < cur.len() && cell_of(#[trigger] cur[i]) == c) <==> (
            c.1 == cy + dy && -r <= c.0 - cx < -r + cols && (c.0 - cx) * (c.0 - cx) + dy * dy <= r * r) by {
            if exists|i: int| 0 <= i < cur.len() && cell_of(#[trigger] cur[i]) == c {
                let i = choose|i: int| 0 <= i < cur.len() && cell_of(#[trigger] cur[i]) == c;
                if i < prev.len() {
                    assert(cur[i] == prev[i]);
                }
            }
            if c.1 == cy + dy && -r <= c.0 - cx < -r + cols && (c.0 - cx) * (c.0 - cx) + dy * dy <= r * r {
                if c.0 - cx < dx {
                    let i = choose|i: int| 0 <= i < prev.len() && cell_of(#[trigger] prev[i]) == c;
                    assert(cell_of(cur[i]) == c);
                } else {
                    assert(cell_of(cur[prev.len() as int]) == c);
                }
            }
        }
    }
}

proof fn lemma_rows_membership(cx: int, cy: int, r: int, rows: int)
    requires
        0 <= rows <= 2 * r + 1,
        i32::MIN <= cx - r && cx + r <= i32::MAX && i32::MIN <= cy - r && cy + r <= i32::MAX,
    ensures
        forall|c: (int, int)|
            (exists|i: int| 0 <= i < disk_rows(cx, cy, r, rows).len() && cell_of(#[trigger] disk_rows(cx, cy, r, rows)[i]) == c) <==> (
            -r <= c.1 - cy < -r + rows && -r <= c.0 - cx <= r && (c.0 - cx) * (c.0 - cx) + (c.1 - cy) * (c.1 - cy) <= r * r),
    decreases rows,
{
    if rows > 0 {
        lemma_rows_membership(cx, cy, r, rows - 1);
        let dy = -r + rows - 1;
        lemma_row_membership(cx, cy, r, dy, 2 * r + 1);
        let prev = disk_rows(cx, cy, r, rows - 1);
        let row = disk_row(cx, cy, r, dy, 2 * r + 1);
        let cur = disk_rows(cx, cy, r, rows);
        assert(cur == prev + row);
        assert forall|c: (int, int)|
            (exists|i: int| 0 <= i < cur.len() && cell_of(#[trigger] cur[i]) == c) <==> (
            -r <= c.1 - cy < -r + rows && -r <= c.0 - cx <= r && (c.0 - cx) * (c.0 - cx) + (c.1 - cy) * (c.1 - cy) <= r * r) by {
            if exists|i: int| 0 <= i < cur.len() && cell_of(#[trigger] cur[i]) == c {
                let i = choose|i: int| 0 <= i < cur.len() && cell_of(#[trigger] cur[i]) == c;
                if i < prev.len() {
                    assert(cur[i] == prev[i]);
                } else {
                    assert(cur[i] == row[i - prev.len()]);
                }
            }
            if -r <= c.1 - cy < -r + rows && -r <= c.0 - cx <= r && (c.0 - cx) * (c.0 - cx) + (c.1 - cy) * (c.1 - cy) <= r * r {
                if c.1 - cy < dy {
                    let i = choose|i: int| 0 <= i < prev.len() && cell_of(#[trigger] prev[i]) == c;
                    assert(cell_of(cur[i]) == c);
                } else {
                    let i = choose|i: int| 0 <= i < row.len() && cell_of(#[trigger] row[i]) == c;
                    assert(cell_of(cur[prev.len() + i]) == c);
                }
            }
        }
    }
}

proof fn lemma_disk_membership(cx: int, cy: int, r: int)
    requires
        0 <= r,
        i32::MIN <= cx - r && cx + r <= i32::MAX && i32::MIN <= cy - r && cy + r <= i32::MAX,
    ensures
        forall|c: (int, int)|
            (exists|i: int| 0 <= i < disk_cells(cx, cy, r).len() && cell_of(#[trigger] disk_cells(cx, cy, r)[i]) == c) <==> (
            (c.0 - cx) * (c.0 - cx) + (c.1 - cy) * (c.1 - cy) <= r * r),
{
    lemma_rows_membership(cx, cy, r, 2 * r + 1);
    let d = disk_cells(cx, cy, r);
    assert(d == disk_rows(cx, cy, r, 2 * r + 1));
    assert forall|c: (int, int)|
        (exists|i: int| 0 <= i < d.len() && cell_of(#[trigger] d[i]) == c) <==> (
        (c.0 - cx) * (c.0 - cx) + (c.1 - cy) * (c.1 - cy) <= r * r) by {
        if (c.0 - cx) * (c.0 - cx) + (c.1 - cy) * (c.1 - cy) <= r * r {
            lemma_square_bound(c.0 - cx, c.1 - cy, r);
            lemma_square_bound(c.1 - cy, c.0 - cx, r);
        }
    }
}

proof fn lemma_square_bound(a: int, b: int, r: int)
    requires
        0 <= r,
        a * a + b * b <= r * r,
    ensures
        -r <= a <= r,
{
    assert(b * b >= 0) by (nonlinear_arith);
    if a > r {
        assert(a * a > r * r) by (nonlinear_arith)
            requires a > r, r >= 0;
    }
    if a < -r {
        assert(a * a > r * r) by (nonlinear_arith)
            requires a < -r, r >= 0;
    }
}

} // verus!
