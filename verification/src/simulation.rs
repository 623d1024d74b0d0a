use vstd::prelude::*;

verus! {

/// Bit pattern (IEEE-754 single precision) of the water mass a full cell
/// holds: 1000.0 kg.
pub const MAX_WATER_BITS: u32 = 0x447a_0000u32;

/// One voxel of the world.
///
/// Masses (water fill, object weight, building weight and collapse
/// threshold) are carried as the bit pattern of an IEEE-754 single
/// precision number of kilograms. The library never does arithmetic on
/// them: it moves, copies and compares them, and the physics that needs
/// their numeric value decodes them.
#[derive(Clone, Copy, Debug, PartialEq, Eq, Structural)]
pub enum Cell {
    Air,
    Water(u32),
    Object(u32),
    Wall,
    /// Fixed water source; always holds a full cell of water.
    Spring,
    /// Fixed water sink; always holds nothing.
    Drain,
    /// A destructible structure.
    Building { weight: u32, threshold: u32 },
    /// Impassable natural terrain.
    Rock,
    /// Passable natural terrain.
    Sand,
}

/// The mass bit pattern `m` is a NaN: all exponent bits set and a
/// non-zero fraction.
pub open spec fn mass_is_nan(m: u32) -> bool {
    m & 0x7fff_ffffu32 > 0x7f80_0000u32
}

/// Equality of two masses as single precision numbers: no NaN equals
/// anything, +0 equals -0, and otherwise equal numbers have equal bits.
pub open spec fn mass_eq(a: u32, b: u32) -> bool {
    &&& !mass_is_nan(a)
    &&& !mass_is_nan(b)
    &&& (a == b || (a & 0x7fff_ffffu32 == 0 && b & 0x7fff_ffffu32 == 0))
}

/// Equality of cells: the same kind, with equal masses.
pub open spec fn cell_eq(a: Cell, b: Cell) -> bool {
    match (a, b) {
        (Cell::Air, Cell::Air) => true,
        (Cell::Water(x), Cell::Water(y)) => mass_eq(x, y),
        (Cell::Object(x), Cell::Object(y)) => mass_eq(x, y),
        (Cell::Wall, Cell::Wall) => true,
        (Cell::Spring, Cell::Spring) => true,
        (Cell::Drain, Cell::Drain) => true,
        (
            Cell::Building { weight: w1, threshold: t1 },
            Cell::Building { weight: w2, threshold: t2 },
        ) => mass_eq(w1, w2) && mass_eq(t1, t2),
        (Cell::Rock, Cell::Rock) => true,
        (Cell::Sand, Cell::Sand) => true,
        _ => false,
    }
}

/// Whether two masses are equal as single precision numbers.
pub fn masses_equal(a: u32, b: u32) -> (r: bool)
    ensures
        r == mass_eq(a, b),
{
    let ma = a & 0x7fff_ffffu32;
    let mb = b & 0x7fff_ffffu32;
    ma <= 0x7f80_0000u32 && mb <= 0x7f80_0000u32 && (a == b || (ma == 0 && mb == 0))
}

/// Whether two cells are equal: the same kind, with equal masses.
pub fn cells_equal(a: &Cell, b: &Cell) -> (r: bool)
    ensures
        r == cell_eq(*a, *b),
{
    match (a, b) {
        (Cell::Air, Cell::Air) => true,
        (Cell::Water(x), Cell::Water(y)) => masses_equal(*x, *y),
        (Cell::Object(x), Cell::Object(y)) => masses_equal(*x, *y),
        (Cell::Wall, Cell::Wall) => true,
        (Cell::Spring, Cell::Spring) => true,
        (Cell::Drain, Cell::Drain) => true,
        (
            Cell::Building { weight: w1, threshold: t1 },
            Cell::Building { weight: w2, threshold: t2 },
        ) => masses_equal(*w1, *w2) && masses_equal(*t1, *t2),
        (Cell::Rock, Cell::Rock) => true,
        (Cell::Sand, Cell::Sand) => true,
        _ => false,
    }
}

/// Cells a water tick never changes: springs and drains, terrain, walls
/// and buildings.
pub open spec fn is_permanent(c: Cell) -> bool {
    c is Spring || c is Drain || c is Rock || c is Sand || c is Wall || c is Building
}

/// Finishes a water tick: every permanent cell of `before` is put back in
/// place over what the tick computed; every other cell keeps the tick's
/// value.
pub fn keep_permanent_cells(before: &Vec<Cell>, after: &mut Vec<Cell>)
    requires
        old(after)@.len() == before@.len(),
    ensures
        final(after)@.len() == before@.len(),
        forall|i: int| 0 <= i < before@.len() ==> #[trigger] final(after)@[i] == (
            if is_permanent(before@[i]) { before@[i] } else { old(after)@[i] }),
{
    let mut i: usize = 0;
    while i < before.len()
        invariant
            i <= before@.len(),
            after@.len() == before@.len(),
            forall|k: int| 0 <= k < before@.len() ==> #[trigger] after@[k] == (
                if k < i && is_permanent(before@[k]) { before@[k] } else { old(after)@[k] }),
        decreases before@.len() - i,
    {
        let c = before[i];
        if matches!(c, Cell::Spring | Cell::Drain | Cell::Rock | Cell::Sand | Cell::Wall | Cell::Building { .. }) {
            after.set(i, c);
        }
        i = i + 1;
    }
}

/// `y * w + x` stays inside a `w` x `h` grid.
pub proof fn lemma_index2_bounds(w: int, h: int, x: int, y: int)
    requires
        0 <= x < w,
        0 <= y < h,
    ensures
        0 <= y * w,
        y * w + x < w * h,
        y * w + w <= w * h,
{
    assert(y * w + w <= w * h) by (nonlinear_arith)
        requires 0 <= x < w, 0 <= y < h;
}

/// `y * w + x` determines `(x, y)` when `x < w`.
pub proof fn lemma_index2_injective(w: int, x1: int, y1: int, x2: int, y2: int)
    requires
        0 <= x1 < w,
        0 <= x2 < w,
        0 <= y1,
        0 <= y2,
        y1 * w + x1 == y2 * w + x2,
    ensures
        x1 == x2 && y1 == y2,
{
    assert(y1 == y2) by (nonlinear_arith)
        requires
            y1 * w + x1 == y2 * w + x2,
            0 <= x1 < w,
            0 <= x2 < w,
            0 <= y1,
            0 <= y2;
}

/// The layout of a freshly initialised flood grid: walls on the left,
/// right and top edges, a closed gate row at y = 1, and a full reservoir of
/// water along y = 0 between the side walls.
pub open spec fn init_layout(w: int, h: int, x: int, y: int) -> Cell {
    if x == 0 || x == w - 1 {
        Cell::Wall
    } else if y == 0 {
        Cell::Water(MAX_WATER_BITS)
    } else if y == h - 1 || y == 1 {
        Cell::Wall
    } else {
        Cell::Air
    }
}

/// A 2D simulation grid, stored row-major (`y * width + x`).
pub struct Grid {
    pub width: usize,
    pub height: usize,
    pub cells: Vec<Cell>,
}

impl Grid {
    pub open spec fn wf(&self) -> bool {
        self.cells@.len() == self.width * self.height
    }

    pub open spec fn in_grid(&self, x: int, y: int) -> bool {
        0 <= x < self.width && 0 <= y < self.height
    }

    /// The cell at `(x, y)`.
    pub open spec fn cell(&self, x: int, y: int) -> Cell {
        self.cells@[y * self.width + x]
    }

    /// A grid laid out as [`init_layout`] describes.
    pub fn init(width: usize, height: usize) -> (g: Grid)
        requires
            width >= 1,
            height >= 1,
            width * height <= usize::MAX,
        ensures
            g.width == width,
            g.height == height,
            g.wf(),
            forall|x: int, y: int| g.in_grid(x, y)
                ==> #[trigger] g.cell(x, y) == init_layout(width as int, height as int, x, y),
    {
        let mut grid = Grid { width, height, cells: vec![Cell::Air; width * height] };
        let ghost w = width as int;
        let ghost h = height as int;
        assert forall|a: int, b: int| grid.in_grid(a, b) implies #[trigger] grid.cell(a, b) == Cell::Air by {
            lemma_index2_bounds(w, h, a, b);
        }

        let mut x: usize = 0;
        while x < width
            invariant
                grid.width == width,
                grid.height == height,
                grid.wf(),
                w == width,
                h == height,
                height >= 1,
                x <= width,
                forall|a: int, b: int| grid.in_grid(a, b) ==> #[trigger] grid.cell(a, b) == (
                    if b == h - 1 && a < x { Cell::Wall } else { Cell::Air }),
            decreases width - x,
        {
            grid.set_cell(x, height - 1, Cell::Wall);
            x = x + 1;
        }

        let mut y: usize = 0;
        while y < height
            invariant
                grid.width == width,
                grid.height == height,
                grid.wf(),
                w == width,
                h == height,
                width >= 1,
                y <= height,
                forall|a: int, b: int| grid.in_grid(a, b) ==> #[trigger] grid.cell(a, b) == (
                    if (a == 0 || a == w - 1) && b < y {
                        Cell::Wall
                    } else if b == h - 1 {
                        Cell::Wall
                    } else {
                        Cell::Air
                    }),
            decreases height - y,
        {
            grid.set_cell(0, y, Cell::Wall);
            grid.set_cell(width - 1, y, Cell::Wall);
            y = y + 1;
        }

        if height > 1 {
            let mut x: usize = 1;
            while x < width - 1
                invariant
                    grid.width == width,
                    grid.height == height,
                    grid.wf(),
                    w == width,
                    h == height,
                    width >= 1,
                    height > 1,
                    1 <= x <= width - 1 || (width == 1 && x == 1),
                    forall|a: int, b: int| grid.in_grid(a, b) ==> #[trigger] grid.cell(a, b) == (
                        if a == 0 || a == w - 1 {
                            Cell::Wall
                        } else if b == h - 1 || (b == 1 && a < x) {
                            Cell::Wall
                        } else {
                            Cell::Air
                        }),
                decreases width - x,
            {
                grid.set_cell(x, 1, Cell::Wall);
                x = x + 1;
            }
        }

        let mut x: usize = 1;
        while x < width - 1
            invariant
                grid.width == width,
                grid.height == height,
                grid.wf(),
                w == width,
                h == height,
                width >= 1,
                height >= 1,
                1 <= x <= width - 1 || (width == 1 && x == 1),
                forall|a: int, b: int| grid.in_grid(a, b) ==> #[trigger] grid.cell(a, b) == (
                    if a == 0 || a == w - 1 {
                        Cell::Wall
                    } else if b == 0 && a < x {
                        Cell::Water(MAX_WATER_BITS)
                    } else if b == h - 1 || b == 1 {
                        Cell::Wall
                    } else {
                        Cell::Air
                    }),
            decreases width - x,
        {
            grid.set_cell(x, 0, Cell::Water(MAX_WATER_BITS));
            x = x + 1;
        }
        grid
    }

    /// Writes `cell` at `(x, y)`; every other cell keeps its value.
    pub fn set_cell(&mut self, x: usize, y: usize, cell: Cell)
        requires
            old(self).wf(),
            old(self).in_grid(x as int, y as int),
        ensures
            final(self).width == old(self).width,
            final(self).height == old(self).height,
            final(self).wf(),
            final(self).cells@ == old(self).cells@.update(y * old(self).width + x, cell),
            forall|a: int, b: int| old(self).in_grid(a, b) ==> #[trigger] final(self).cell(a, b) == (
                if a == x && b == y { cell } else { old(self).cell(a, b) }),
    {
        proof {
            lemma_index2_bounds(self.width as int, self.height as int, x as int, y as int);
        }
        let len = self.cells.len();
        assert(y * self.width + x < len);
        self.cells.set(y * self.width + x, cell);
        proof {
            assert forall|a: int, b: int| old(self).in_grid(a, b) implies #[trigger] self.cell(a, b) == (
                if a == x && b == y { cell } else { old(self).cell(a, b) }) by {
                lemma_index2_bounds(self.width as int, self.height as int, a, b);
                if b * self.width + a == y * self.width + x {
                    lemma_index2_injective(self.width as int, a, b, x as int, y as int);
                }
            }
        }
    }

    /// The cell at `(x, y)`.
    pub fn get_cell(&self, x: usize, y: usize) -> (c: &Cell)
        requires
            self.wf(),
            self.in_grid(x as int, y as int),
        ensures
            *c == self.cell(x as int, y as int),
    {
        proof {
            lemma_index2_bounds(self.width as int, self.height as int, x as int, y as int);
        }
        let len = self.cells.len();
        assert(y * self.width + x < len);
        &self.cells[y * self.width + x]
    }
}

} // verus!
