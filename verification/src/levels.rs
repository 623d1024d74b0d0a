use vstd::prelude::*;

use crate::simulation::Cell;
use crate::grid::{GameState, InletMode};
use crate::simulation3d::{cell_index, lemma_cell_index_bounds, Grid3D};

verus! {

/// One cell a level file places. `z` may be absent (2D level files), in
/// which case it is 0.
#[derive(Clone, Copy, Debug)]
pub struct CellPlacement {
    pub x: usize,
    pub y: usize,
    pub z: Option<usize>,
    pub cell: Cell,
}

/// A level as read from a level file. `depth` may be absent (2D level
/// files), in which case it is 1.
pub struct LevelData {
    pub name: String,
    pub width: usize,
    pub height: usize,
    pub depth: Option<usize>,
    pub default_inlet_mode: InletMode,
    pub cells: Vec<CellPlacement>,
}

/// The depth a level declares, 1 when it declares none.
pub open spec fn level_depth(depth: Option<usize>) -> int {
    match depth {
        Some(d) => d as int,
        None => 1,
    }
}

/// The Z coordinate a placement names, 0 when it names none.
pub open spec fn placement_z(p: CellPlacement) -> int {
    match p.z {
        Some(z) => z as int,
        None => 0,
    }
}

/// Whether placement `p` lies inside a `w` x `h` x `d` grid.
pub open spec fn placement_fits(p: CellPlacement, w: int, h: int, d: int) -> bool {
    p.x < w && p.y < h && placement_z(p) < d
}

/// The cells of a `w` x `h` x `d` level after its first `m` placements:
/// an all-air grid where each placement inside the grid writes its cell,
/// later placements overwriting earlier ones.
pub open spec fn level_cells(w: int, h: int, d: int, placements: Seq<CellPlacement>, m: int) -> Seq<Cell>
    decreases m,
{
    if m <= 0 {
        Seq::new((w * h * d) as nat, |i: int| Cell::Air)
    } else {
        let prev = level_cells(w, h, d, placements, m - 1);
        let p = placements[m - 1];
        if placement_fits(p, w, h, d) {
            prev.update(cell_index(w, d, p.x as int, p.y as int, placement_z(p)), p.cell)
        } else {
            prev
        }
    }
}

/// Whether a level's dimensions fit in memory addressing.
pub open spec fn level_fits(level: &LevelData) -> bool {
    &&& level.width * level.height <= usize::MAX
    &&& level.width * level.height * level_depth(level.depth) <= usize::MAX
}

/// Builds the grid a level describes and adopts its inlet mode.
pub fn apply_level(level: &LevelData, grid: &mut Grid3D, inlet_mode: &mut InletMode)
    requires
        level_fits(level),
    ensures
        final(grid).width == level.width,
        final(grid).height == level.height,
        final(grid).depth == level_depth(level.depth),
        final(grid).wf(),
        final(grid).cells@ == level_cells(
            level.width as int,
            level.height as int,
            level_depth(level.depth),
            level.cells@,
            level.cells@.len() as int,
        ),
        *final(inlet_mode) == level.default_inlet_mode,
{
    let depth = match level.depth {
        Some(d) => d,
        None => 1,
    };
    let mut g = Grid3D::blank(level.width, level.height, depth);
    let ghost w = level.width as int;
    let ghost h = level.height as int;
    let ghost d = depth as int;
    assert(g.cells@ =~= level_cells(w, h, d, level.cells@, 0));
    let mut i: usize = 0;
    while i < level.cells.len()
        invariant
            i <= level.cells@.len(),
            g.wf(),
            g.width == level.width,
            g.height == level.height,
            g.depth == depth,
            w == level.width,
            h == level.height,
            d == depth,
            g.cells@ == level_cells(w, h, d, level.cells@, i as int),
        decreases level.cells@.len() - i,
    {
        let p = level.cells[i];
        let z = match p.z {
            Some(z) => z,
            None => 0,
        };
        if p.x < g.width && p.y < g.height && z < g.depth {
            g.set_cell(p.x, p.y, z, p.cell);
        }
        i = i + 1;
    }
    *grid = g;
    *inlet_mode = level.default_inlet_mode;
}

/// Each voxel of a level holds the cell of the last placement inside the
/// grid that names it, or air when none does.
pub proof fn law_level_cell(
    w: int,
    h: int,
    d: int,
    placements: Seq<CellPlacement>,
    m: int,
    x: int,
    y: int,
    z: int,
)
    requires
        0 <= m <= placements.len(),
        0 <= x < w,
        0 <= y < h,
        0 <= z < d,
    ensures
        ({
            let cells = level_cells(w, h, d, placements, m);
            let i = cell_index(w, d, x, y, z);
            &&& cells.len() == w * h * d
            &&& (forall|k: int| 0 <= k < m ==> !(#[trigger] placements[k].x == x
                && placements[k].y == y && placement_z(placements[k]) == z)) ==> cells[i] == Cell::Air
            &&& forall|k: int| 0 <= k < m && placements[k].x == x && placements[k].y == y
                && placement_z(placements[k]) == z
                && (forall|j: int| k < j < m ==> !(#[trigger] placements[j].x == x
                    && placements[j].y == y && placement_z(placements[j]) == z))
                ==> cells[i] == #[trigger] placements[k].cell
        }),
    decreases m,
{
    lemma_cell_index_bounds(w, h, d, x, y, z);
    assert(0 <= w * h * d) by (nonlinear_arith)
        requires 0 <= x < w, 0 <= y < h, 0 <= z < d;
    if m > 0 {
        law_level_cell(w, h, d, placements, m - 1, x, y, z);
        let p = placements[m - 1];
        if placement_fits(p, w, h, d) {
            lemma_cell_index_bounds(w, h, d, p.x as int, p.y as int, placement_z(p));
            if cell_index(w, d, p.x as int, p.y as int, placement_z(p)) == cell_index(w, d, x, y, z) {
                crate::simulation3d::lemma_cell_index_injective(
                    w, h, d, p.x as int, p.y as int, placement_z(p), x, y, z);
            }
        }
    }
}

/// Loads a parsed level into the grid, or, when the level could not be
/// read, falls back to a blank `cols` x `rows` x `depth` grid. Either way
/// the water is stopped and the inlet opening rewound.
pub fn load_level(
    parsed: Option<LevelData>,
    grid: &mut Grid3D,
    state: &mut GameState,
    inlet_mode: &mut InletMode,
    cols: usize,
    rows: usize,
    depth: usize,
)
    requires
        parsed matches Some(level) ==> level_fits(&level),
        parsed is None ==> cols * rows <= usize::MAX && cols * rows * depth <= usize::MAX,
    ensures
        match parsed {
            Some(level) => {
                &&& final(grid).width == level.width
                &&& final(grid).height == level.height
                &&& final(grid).depth == level_depth(level.depth)
                &&& final(grid).wf()
                &&& final(grid).cells@ == level_cells(
                    level.width as int,
                    level.height as int,
                    level_depth(level.depth),
                    level.cells@,
                    level.cells@.len() as int,
                )
                &&& *final(inlet_mode) == level.default_inlet_mode
            },
            None => {
                &&& final(grid).width == cols
                &&& final(grid).height == rows
                &&& final(grid).depth == depth
                &&& final(grid).wf()
                &&& forall|i: int| 0 <= i < final(grid).cells@.len() ==> final(grid).cells@[i] == Cell::Air
                &&& *final(inlet_mode) == *old(inlet_mode)
            },
        },
        final(state).water_flow == false,
        final(state).gate_progress == 0,
        final(state).sim_speed == old(state).sim_speed,
        final(state).brush_radius == old(state).brush_radius,
        final(state).drag_start == old(state).drag_start,
{
    match parsed {
        Some(level) => apply_level(&level, grid, inlet_mode),
        None => {
            *grid = Grid3D::blank(cols, rows, depth);
        },
    }
    state.reset_flow();
}

} // verus!
