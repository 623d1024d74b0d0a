use vstd::prelude::*;

use crate::simulation::Cell;

verus! {

/// Row-major position of voxel `(x, y, z)` in a grid `width` wide and
/// `depth` deep: `y * width * depth + z * width + x`.
pub open spec fn cell_index(width: int, depth: int, x: int, y: int, z: int) -> int {
    y * width * depth + z * width + x
}

/// The index of an in-range voxel lies inside the cell vector.
pub proof fn lemma_cell_index_bounds(w: int, h: int, d: int, x: int, y: int, z: int)
    requires
        0 <= x < w,
        0 <= y < h,
        0 <= z < d,
    ensures
        0 <= y * w <= cell_index(w, d, x, y, z),
        0 <= z * w + x < w * d,
        cell_index(w, d, x, y, z) < w * h * d,
{
    assert(0 <= z * w + x < w * d) by (nonlinear_arith)
        requires 0 <= x < w, 0 <= z < d;
    assert(0 <= y * w <= y * w * d) by (nonlinear_arith)
        requires 0 <= y, 0 <= x < w, 0 <= z < d;
    assert(y * w * d + w * d <= w * h * d) by (nonlinear_arith)
        requires 0 <= y < h, 0 <= x < w, 0 <= z < d;
}

/// Distinct in-range voxels occupy distinct slots.
pub proof fn lemma_cell_index_injective(
    w: int, h: int, d: int,
    x1: int, y1: int, z1: int,
    x2: int, y2: int, z2: int,
)
    requires
        0 <= x1 < w, 0 <= y1 < h, 0 <= z1 < d,
        0 <= x2 < w, 0 <= y2 < h, 0 <= z2 < d,
        cell_index(w, d, x1, y1, z1) == cell_index(w, d, x2, y2, z2),
    ensures
        x1 == x2 && y1 == y2 && z1 == z2,
{
    let r1 = z1 * w + x1;
    let r2 = z2 * w + x2;
    lemma_cell_index_bounds(w, h, d, x1, y1, z1);
    lemma_cell_index_bounds(w, h, d, x2, y2, z2);
    assert(y1 * w * d == y1 * (w * d)) by (nonlinear_arith);
    assert(y2 * w * d == y2 * (w * d)) by (nonlinear_arith);
    assert(y1 == y2) by (nonlinear_arith)
        requires
            y1 * (w * d) + r1 == y2 * (w * d) + r2,
            0 <= r1 < w * d,
            0 <= r2 < w * d,
            0 <= y1, 0 <= y2;
    assert(z1 == z2) by (nonlinear_arith)
        requires
            z1 * w + x1 == z2 * w + x2,
            0 <= x1 < w, 0 <= x2 < w,
            0 <= z1, 0 <= z2;
}

/// A 3D voxel grid.
///
/// Axis convention: X is left/right, Y is vertical (gravity pulls toward
/// Y = 0), Z is front/back. Cells are stored row-major, see [`cell_index`].
pub struct Grid3D {
    pub width: usize,
    pub height: usize,
    pub depth: usize,
    pub cells: Vec<Cell>,
}

impl Grid3D {
    /// The cell vector holds exactly one cell per voxel.
    pub open spec fn wf(&self) -> bool {
        self.cells@.len() == self.width * self.height * self.depth
    }

    pub open spec fn in_grid(&self, x: int, y: int, z: int) -> bool {
        0 <= x < self.width && 0 <= y < self.height && 0 <= z < self.depth
    }

    pub open spec fn index_of(&self, x: int, y: int, z: int) -> int {
        cell_index(self.width as int, self.depth as int, x, y, z)
    }

    /// The voxel at `(x, y, z)`.
    pub open spec fn cell(&self, x: int, y: int, z: int) -> Cell {
        self.cells@[self.index_of(x, y, z)]
    }

    /// Row-major flat index of `(x, y, z)`.
    pub fn idx(&self, x: usize, y: usize, z: usize) -> (i: usize)
        requires
            y * self.width <= usize::MAX,
            y * self.width * self.depth + z * self.width + x <= usize::MAX,
        ensures
            i == self.index_of(x as int, y as int, z as int),
    {
        assert(0 <= z * self.width) by (nonlinear_arith);
        assert(0 <= y * self.width * self.depth) by (nonlinear_arith);
        y * self.width * self.depth + z * self.width + x
    }

    /// An all-Air grid with no pre-placed geometry.
    pub fn blank(width: usize, height: usize, depth: usize) -> (g: Self)
        requires
            width * height <= usize::MAX,
            width * height * depth <= usize::MAX,
        ensures
            g.width == width,
            g.height == height,
            g.depth == depth,
            g.wf(),
            forall|i: int| 0 <= i < g.cells@.len() ==> g.cells@[i] == Cell::Air,
    {
        let n = width * height * depth;
        let cells = vec![Cell::Air; n];
        Grid3D { width, height, depth, cells }
    }

    /// Writes `cell` at `(x, y, z)`; every other voxel keeps its value.
    pub fn set_cell(&mut self, x: usize, y: usize, z: usize, cell: Cell)
        requires
            old(self).wf(),
            old(self).in_grid(x as int, y as int, z as int),
        ensures
            final(self).width == old(self).width,
            final(self).height == old(self).height,
            final(self).depth == old(self).depth,
            final(self).wf(),
            final(self).cells@ == old(self).cells@.update(
                old(self).index_of(x as int, y as int, z as int),
                cell,
            ),
            final(self).cell(x as int, y as int, z as int) == cell,
            forall|a: int, b: int, c: int|
                old(self).in_grid(a, b, c) && !(a == x && b == y && c == z)
                    ==> #[trigger] final(self).cell(a, b, c) == old(self).cell(a, b, c),
    {
        proof {
            lemma_cell_index_bounds(
                self.width as int, self.height as int, self.depth as int,
                x as int, y as int, z as int,
            );
        }
        let len = self.cells.len();
        assert(self.index_of(x as int, y as int, z as int) < len);
        let i = self.idx(x, y, z);
        self.cells.set(i, cell);
        proof {
            assert forall|a: int, b: int, c: int|
                old(self).in_grid(a, b, c) && !(a == x && b == y && c == z)
                    implies #[trigger] self.cell(a, b, c) == old(self).cell(a, b, c) by {
                lemma_cell_index_bounds(
                    self.width as int, self.height as int, self.depth as int, a, b, c);
                if self.index_of(a, b, c) == i {
                    lemma_cell_index_injective(
                        self.width as int, self.height as int, self.depth as int,
                        a, b, c, x as int, y as int, z as int);
                }
            }
        }
    }

    /// The voxel at `(x, y, z)`.
    pub fn get_cell(&self, x: usize, y: usize, z: usize) -> (c: &Cell)
        requires
            self.wf(),
            self.in_grid(x as int, y as int, z as int),
        ensures
            *c == self.cell(x as int, y as int, z as int),
    {
        proof {
            lemma_cell_index_bounds(
                self.width as int, self.height as int, self.depth as int,
                x as int, y as int, z as int,
            );
        }
        let len = self.cells.len();
        assert(self.index_of(x as int, y as int, z as int) < len);
        &self.cells[self.idx(x, y, z)]
    }

    /// Whether signed coordinates `(x, y, z)` lie inside the grid.
    pub fn in_bounds(&self, x: i32, y: i32, z: i32) -> (b: bool)
        ensures
            b == self.in_grid(x as int, y as int, z as int),
    {
        x >= 0 && y >= 0 && z >= 0
            && (x as usize) < self.width
            && (y as usize) < self.height
            && (z as usize) < self.depth
    }
}

// ---------------------------------------------------------------------------
// Column-fill tools
// ---------------------------------------------------------------------------

/// The highest layer a column fill reaches: the active layer, clamped to
/// the grid ceiling.
pub open spec fn column_top(g: &Grid3D, active_layer_y: int) -> int {
    let ceiling = if g.height == 0 { 0 } else { g.height - 1 };
    if active_layer_y < ceiling { active_layer_y } else { ceiling }
}

/// The shape every column fill result has: entries for column `(x, z)` in
/// increasing `y` order, never above `top`, each carrying the voxel's
/// current value.
pub open spec fn column_entries(
    g: &Grid3D,
    x: int,
    z: int,
    top: int,
    r: Seq<(usize, usize, usize, Cell)>,
) -> bool {
    &&& forall|i: int| #![trigger r[i]]
        0 <= i < r.len() ==> {
            &&& r[i].0 == x
            &&& r[i].2 == z
            &&& 0 <= r[i].1 <= top
            &&& r[i].3 == g.cell(x, r[i].1 as int, z)
        }
    &&& forall|i: int, j: int| 0 <= i < j < r.len() ==> r[i].1 < r[j].1
}

/// Whether the column holds an entry for layer `y`.
pub open spec fn column_has(r: Seq<(usize, usize, usize, Cell)>, y: int) -> bool {
    exists|i: int| 0 <= i < r.len() && r[i].1 == y
}

/// The cells a wall column fill may replace: anything but terrain and
/// existing walls.
pub open spec fn wall_fillable(c: Cell) -> bool {
    !(c is Rock || c is Sand || c is Wall)
}

/// The cells a column-fill click at column `(x, z)` should change.
///
/// The fill drops from the active layer straight down to the floor: every
/// cell from Y = 0 up to `active_layer_y` (clamped to the grid ceiling) for
/// which `can_fill` answers `true` is listed, lowest first, together with
/// its current value so the caller can record undo history. A column
/// outside the grid yields nothing.
pub fn column_changes(
    grid: &Grid3D,
    x: usize,
    z: usize,
    active_layer_y: usize,
    can_fill: impl Fn(&Cell) -> bool,
) -> (r: Vec<(usize, usize, usize, Cell)>)
    requires
        grid.wf(),
        x < grid.width && z < grid.depth ==> grid.height > 0,
        forall|c: &Cell| #[trigger] can_fill.requires((c,)),
    ensures
        x >= grid.width || z >= grid.depth ==> r@.len() == 0,
        x < grid.width && z < grid.depth ==> {
            let top = column_top(grid, active_layer_y as int);
            &&& column_entries(grid, x as int, z as int, top, r@)
            &&& forall|i: int| 0 <= i < r@.len()
                ==> call_ensures(can_fill, (&r@[i].3,), true)
            &&& forall|y: int| 0 <= y <= top && !column_has(r@, y)
                ==> call_ensures(can_fill, (&grid.cell(x as int, y, z as int),), false)
        },
{
    let mut changes: Vec<(usize, usize, usize, Cell)> = Vec::new();
    if x >= grid.width || z >= grid.depth {
        return changes;
    }
    let ceiling = grid.height.saturating_sub(1);
    let top = if active_layer_y < ceiling { active_layer_y } else { ceiling };
    let mut y: usize = 0;
    while y <= top
        invariant
            grid.wf(),
            x < grid.width,
            z < grid.depth,
            top == column_top(grid, active_layer_y as int),
            top < grid.height,
            y <= top + 1,
            forall|c: &Cell| #[trigger] can_fill.requires((c,)),
            column_entries(grid, x as int, z as int, top as int, changes@),
            forall|i: int| 0 <= i < changes@.len() ==> changes@[i].1 < y,
            forall|i: int| 0 <= i < changes@.len()
                ==> call_ensures(can_fill, (&changes@[i].3,), true),
            forall|yy: int| 0 <= yy < y && !column_has(changes@, yy)
                ==> call_ensures(can_fill, (&grid.cell(x as int, yy, z as int),), false),
        decreases top + 1 - y,
    {
        let old = grid.get_cell(x, y, z);
        let fill = can_fill(old);
        let ghost before = changes@;
        if fill {
            changes.push((x, y, z, *old));
            proof {
                assert(changes@[changes@.len() - 1].1 == y);
                assert forall|yy: int| 0 <= yy < y + 1 && !column_has(changes@, yy)
                    implies call_ensures(can_fill, (&grid.cell(x as int, yy, z as int),), false) by {
                    if yy < y {
                        if column_has(before, yy) {
                            let i = choose|i: int| 0 <= i < before.len() && before[i].1 == yy;
                            assert(changes@[i] == before[i]);
                        }
                    } else {
                        assert(changes@[changes@.len() - 1].1 == yy);
                    }
                }
            }
        }
        y = y + 1;
    }
    changes
}

/// What a wall column fill lists, stated cell kind by cell kind: given a
/// result of [`wall_column_changes`] for an in-grid column, no entry holds
/// rock, sand or a wall, and every voxel from the floor up to the fill's top
/// that holds anything else (air, water, objects, springs, drains,
/// buildings) is listed; a sand voxel never is.
pub proof fn law_wall_fill_skips_terrain(
    grid: &Grid3D,
    x: int,
    z: int,
    top: int,
    r: Seq<(usize, usize, usize, Cell)>,
)
    requires
        column_entries(grid, x, z, top, r),
        forall|y: int| 0 <= y <= top
            ==> (column_has(r, y) <==> wall_fillable(grid.cell(x, y, z))),
    ensures
        forall|i: int| #![trigger r[i]] 0 <= i < r.len()
            ==> !(r[i].3 is Rock || r[i].3 is Sand || r[i].3 is Wall),
        forall|y: int| 0 <= y <= top
            ==> (column_has(r, y) <==> !(grid.cell(x, y, z) is Rock || grid.cell(x, y, z) is Sand
                || grid.cell(x, y, z) is Wall)),
        forall|y: int| 0 <= y <= top && grid.cell(x, y, z) is Sand ==> !column_has(r, y),
{
    assert forall|i: int| #![trigger r[i]] 0 <= i < r.len()
        implies !(r[i].3 is Rock || r[i].3 is Sand || r[i].3 is Wall) by {
        assert(column_has(r, r[i].1 as int));
    }
}

/// Wall column fill: every cell from the active layer down to the floor that
/// is not terrain (Rock, Sand) or an existing Wall, building a water-tight
/// dam.
pub fn wall_column_changes(
    grid: &Grid3D,
    x: usize,
    z: usize,
    active_layer_y: usize,
) -> (r: Vec<(usize, usize, usize, Cell)>)
    requires
        grid.wf(),
        x < grid.width && z < grid.depth ==> grid.height > 0,
    ensures
        x >= grid.width || z >= grid.depth ==> r@.len() == 0,
        x < grid.width && z < grid.depth ==> {
            let top = column_top(grid, active_layer_y as int);
            &&& column_entries(grid, x as int, z as int, top, r@)
            &&& forall|y: int| 0 <= y <= top
                ==> (column_has(r@, y) <==> wall_fillable(grid.cell(x as int, y, z as int)))
        },
{
    let fillable = |c: &Cell| -> (b: bool)
        ensures
            b == wall_fillable(*c),
        { !matches!(c, Cell::Rock | Cell::Sand | Cell::Wall) };
    let r = column_changes(grid, x, z, active_layer_y, fillable);
    proof {
        if x < grid.width && z < grid.depth {
            let top = column_top(grid, active_layer_y as int);
            assert forall|y: int| 0 <= y <= top implies
                (column_has(r@, y) <==> wall_fillable(grid.cell(x as int, y, z as int))) by {
                if column_has(r@, y) {
                    let i = choose|i: int| 0 <= i < r@.len() && r@[i].1 == y;
                    assert(r@[i].3 == grid.cell(x as int, y, z as int));
                }
            }
        }
    }
    r
}

} // verus!
