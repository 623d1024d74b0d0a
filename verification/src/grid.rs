use vstd::prelude::*;

use crate::simulation::{cell_eq, Cell};
use crate::simulation3d::{cell_index, lemma_cell_index_bounds, Grid3D};
use crate::undo::{
    change_index, changes_within, distinct_positions, first_touch, last_touch, law_undo_restores,
    lemma_last_touch_range, lemma_replay_point, lemma_touch_agree, replay, restore, CellChange,
    UndoStack,
};

verus! {

/// The currently active placement tool. Weights and thresholds are mass
/// bit patterns, as in [`Cell`].
#[derive(Clone, Copy, Debug, PartialEq, Eq, Structural)]
pub enum SelectedTool {
    Block(u32),
    Eraser,
    Spring,
    Drain,
    Building { weight: u32, threshold: u32 },
}

/// Controls how water enters.
#[derive(Clone, Copy, Debug, PartialEq, Eq, Structural)]
pub enum InletMode {
    Flood,
    Sine,
    Random,
}

/// Controls which overlay is rendered.
#[derive(Clone, Copy, Debug, PartialEq, Eq, Structural)]
pub enum ViewMode {
    Normal,
    Pressure,
    FlowArrows,
}

/// The Y layer currently selected for editing (0 = ground floor).
#[derive(Clone, Copy, Debug, PartialEq, Eq, Structural)]
pub struct ActiveLayer {
    pub y: usize,
}

/// Per-frame mutable simulation state.
#[derive(Clone, Copy, Debug)]
pub struct GameState {
    pub water_flow: bool,
    pub gate_progress: usize,
    pub sim_speed: u32,
    pub brush_radius: u32,
    pub drag_start: Option<(usize, usize)>,
}

impl InletMode {
    /// The next mode in the cycle Flood, Sine, Random, Flood.
    pub fn next(self) -> (m: InletMode)
        ensures
            m == (match self {
                InletMode::Flood => InletMode::Sine,
                InletMode::Sine => InletMode::Random,
                InletMode::Random => InletMode::Flood,
            }),
    {
        match self {
            InletMode::Flood => InletMode::Sine,
            InletMode::Sine => InletMode::Random,
            InletMode::Random => InletMode::Flood,
        }
    }
}

impl Default for InletMode {
    fn default() -> (m: Self)
        ensures
            m == InletMode::Flood,
    {
        InletMode::Flood
    }
}

impl ViewMode {
    /// The pressure-heatmap toggle: Pressure goes back to Normal, any other
    /// mode switches to Pressure.
    pub fn pressure_toggled(self) -> (m: ViewMode)
        ensures
            m == (if self == ViewMode::Pressure { ViewMode::Normal } else { ViewMode::Pressure }),
    {
        match self {
            ViewMode::Pressure => ViewMode::Normal,
            _ => ViewMode::Pressure,
        }
    }
}

impl Default for ViewMode {
    fn default() -> (m: Self)
        ensures
            m == ViewMode::Normal,
    {
        ViewMode::Normal
    }
}

/// Most simulation steps per frame.
pub const MAX_SIM_SPEED: u32 = 16;

/// Largest brush radius.
pub const MAX_BRUSH_RADIUS: u32 = 5;

/// The speed one step up from `s`: never above `MAX_SIM_SPEED`.
pub open spec fn faster(s: u32) -> int {
    if s + 1 <= MAX_SIM_SPEED { s + 1 } else { MAX_SIM_SPEED as int }
}

/// The speed one step down from `s`: never below one step per frame.
pub open spec fn slower(s: u32) -> int {
    if s - 1 >= 1 { s - 1 } else { 1 }
}

/// The brush radius one step up from `r`: never above `MAX_BRUSH_RADIUS`.
pub open spec fn larger(r: u32) -> int {
    if r + 1 <= MAX_BRUSH_RADIUS { r + 1 } else { MAX_BRUSH_RADIUS as int }
}

/// The brush radius one step down from `r`: never below zero.
pub open spec fn smaller(r: u32) -> int {
    if r > 0 { r - 1 } else { 0 }
}

/// The speed and brush buttons keep their settings in range: a speed
/// between 1x and 16x stays there, and so does a brush between 1x1 and
/// 11x11, however often the buttons are pressed.
pub proof fn law_controls_stay_in_range(s: u32, r: u32)
    ensures
        1 <= s <= MAX_SIM_SPEED ==> 1 <= faster(s) <= MAX_SIM_SPEED && 1 <= slower(s) <= MAX_SIM_SPEED,
        r <= MAX_BRUSH_RADIUS ==> 0 <= larger(r) <= MAX_BRUSH_RADIUS && 0 <= smaller(r) <= MAX_BRUSH_RADIUS,
        r <= MAX_BRUSH_RADIUS ==> 1 <= 2 * r + 1 <= 2 * MAX_BRUSH_RADIUS + 1,
{
}

impl GameState {
    /// The state a new game starts in: water off, gate closed, speed 1,
    /// single-cell brush, no drag in progress.
    pub fn new() -> (s: GameState)
        ensures
            s == (GameState {
                water_flow: false,
                gate_progress: 0,
                sim_speed: 1,
                brush_radius: 0,
                drag_start: None,
            }),
    {
        GameState { water_flow: false, gate_progress: 0, sim_speed: 1, brush_radius: 0, drag_start: None }
    }

    /// One step slower, never below one step per frame.
    pub fn speed_down(&mut self)
        requires
            old(self).sim_speed >= 1,
        ensures
            final(self).sim_speed == slower(old(self).sim_speed),
            final(self).water_flow == old(self).water_flow,
            final(self).gate_progress == old(self).gate_progress,
            final(self).brush_radius == old(self).brush_radius,
            final(self).drag_start == old(self).drag_start,
    {
        let s = self.sim_speed - 1;
        self.sim_speed = if s > 1 { s } else { 1 };
    }

    /// One step faster, never above `MAX_SIM_SPEED` steps per frame.
    pub fn speed_up(&mut self)
        requires
            old(self).sim_speed < u32::MAX,
        ensures
            final(self).sim_speed == faster(old(self).sim_speed),
            final(self).water_flow == old(self).water_flow,
            final(self).gate_progress == old(self).gate_progress,
            final(self).brush_radius == old(self).brush_radius,
            final(self).drag_start == old(self).drag_start,
    {
        let s = self.sim_speed + 1;
        self.sim_speed = if s < MAX_SIM_SPEED { s } else { MAX_SIM_SPEED };
    }

    /// A smaller brush, never below radius zero.
    pub fn brush_down(&mut self)
        ensures
            final(self).brush_radius == smaller(old(self).brush_radius),
            final(self).water_flow == old(self).water_flow,
            final(self).gate_progress == old(self).gate_progress,
            final(self).sim_speed == old(self).sim_speed,
            final(self).drag_start == old(self).drag_start,
    {
        self.brush_radius = self.brush_radius.saturating_sub(1);
    }

    /// A larger brush, never above `MAX_BRUSH_RADIUS`.
    pub fn brush_up(&mut self)
        requires
            old(self).brush_radius < u32::MAX,
        ensures
            final(self).brush_radius == larger(old(self).brush_radius),
            final(self).water_flow == old(self).water_flow,
            final(self).gate_progress == old(self).gate_progress,
            final(self).sim_speed == old(self).sim_speed,
            final(self).drag_start == old(self).drag_start,
    {
        let r = self.brush_radius + 1;
        self.brush_radius = if r < MAX_BRUSH_RADIUS { r } else { MAX_BRUSH_RADIUS };
    }

    /// Width in cells of the square the brush covers.
    pub fn brush_diameter(&self) -> (d: u32)
        requires
            self.brush_radius * 2 + 1 <= u32::MAX,
        ensures
            d == self.brush_radius * 2 + 1,
    {
        self.brush_radius * 2 + 1
    }

    /// Stops the water and rewinds the inlet opening, as after loading a level.
    pub fn reset_flow(&mut self)
        ensures
            *final(self) == (GameState { water_flow: false, gate_progress: 0, ..*old(self) }),
    {
        self.water_flow = false;
        self.gate_progress = 0;
    }
}

/// Terrain and walls: the brush never paints over them.
pub open spec fn is_terrain(c: Cell) -> bool {
    c is Wall || c is Rock || c is Sand
}

/// What the brush writes over cell `c` with `tool`, if anything. Blocks,
/// springs, drains and buildings are not stacked on a cell of their own
/// kind; the eraser always writes air; terrain is never touched.
pub open spec fn brush_placement(tool: SelectedTool, c: Cell) -> Option<Cell> {
    if is_terrain(c) {
        None
    } else {
        match tool {
            SelectedTool::Block(w) => if c is Object { None } else { Some(Cell::Object(w)) },
            SelectedTool::Eraser => Some(Cell::Air),
            SelectedTool::Spring => if c is Spring { None } else { Some(Cell::Spring) },
            SelectedTool::Drain => if c is Drain { None } else { Some(Cell::Drain) },
            SelectedTool::Building { weight, threshold } => if c is Building {
                None
            } else {
                Some(Cell::Building { weight, threshold })
            },
        }
    }
}

/// What the brush writes over `current` with this tool, if anything.
pub fn placement(tool: &SelectedTool, current: &Cell) -> (r: Option<Cell>)
    ensures
        r == brush_placement(*tool, *current),
{
    if matches!(current, Cell::Wall | Cell::Rock | Cell::Sand) {
        return None;
    }
    match tool {
        SelectedTool::Block(w) => if matches!(current, Cell::Object(_)) { None } else { Some(Cell::Object(*w)) },
        SelectedTool::Eraser => Some(Cell::Air),
        SelectedTool::Spring => if matches!(current, Cell::Spring) { None } else { Some(Cell::Spring) },
        SelectedTool::Drain => if matches!(current, Cell::Drain) { None } else { Some(Cell::Drain) },
        SelectedTool::Building { weight, threshold } => if matches!(current, Cell::Building { .. }) {
            None
        } else {
            Some(Cell::Building { weight: *weight, threshold: *threshold })
        },
    }
}

/// What each tool writes, cell kind by cell kind. Walls, rock and sand are
/// never painted over. Otherwise: a block writes an object of its weight
/// over anything but an object (air, water, springs, drains, buildings);
/// the eraser writes air; a spring, a drain or a building is written over
/// anything but a cell of its own kind.
pub proof fn law_brush_placement_rules(tool: SelectedTool, c: Cell)
    ensures
        c is Wall || c is Rock || c is Sand ==> brush_placement(tool, c) is None,
        !(c is Wall || c is Rock || c is Sand) ==> match tool {
            SelectedTool::Block(w) => brush_placement(tool, c)
                == (if c is Object { None } else { Some(Cell::Object(w)) }),
            SelectedTool::Eraser => brush_placement(tool, c) == Some(Cell::Air),
            SelectedTool::Spring => brush_placement(tool, c)
                == (if c is Spring { None } else { Some(Cell::Spring) }),
            SelectedTool::Drain => brush_placement(tool, c)
                == (if c is Drain { None } else { Some(Cell::Drain) }),
            SelectedTool::Building { weight, threshold } => brush_placement(tool, c)
                == (if c is Building { None } else { Some(Cell::Building { weight, threshold }) }),
        },
{
}

/// Painting a cell the tool has just painted changes nothing.
pub proof fn lemma_placement_settles(tool: SelectedTool, c: Cell)
    requires
        brush_placement(tool, c) is Some,
    ensures
        ({
            let v = brush_placement(tool, c)->0;
            brush_placement(tool, v) is None || brush_placement(tool, v) == Some(v)
        }),
{
}

/// A placement the brush makes is equal to the cell it paints over
/// exactly when it is that cell: placements never keep a cell's kind while
/// changing its masses.
pub proof fn lemma_placement_eq(tool: SelectedTool, c: Cell)
    requires
        brush_placement(tool, c) is Some,
    ensures
        cell_eq(c, brush_placement(tool, c)->0) <==> c == brush_placement(tool, c)->0,
{
}

/// Shift-drag constraint: the cursor cell is snapped onto the straight
/// line through the drag start, along whichever axis it moved further.
pub fn constrain_to_line(cx: usize, cz: usize, drag_start: Option<(usize, usize)>) -> (r: (usize, usize))
    ensures
        r == (match drag_start {
            None => (cx, cz),
            Some((sx, sz)) => {
                let dx = if cx >= sx { cx - sx } else { sx - cx };
                let dz = if cz >= sz { cz - sz } else { sz - cz };
                if dx >= dz { (cx, sz) } else { (sx, cz) }
            },
        }),
{
    match drag_start {
        None => (cx, cz),
        Some((sx, sz)) => {
            let dx = if cx >= sx { cx - sx } else { sx - cx };
            let dz = if cz >= sz { cz - sz } else { sz - cz };
            if dx >= dz { (cx, sz) } else { (sx, cz) }
        },
    }
}

/// Cells, pending undo changes and whether anything was placed: the state
/// a brush stroke threads through.
pub type BrushState = (Seq<Cell>, Seq<CellChange>, bool);

/// Brush coordinate: the offset position clamped at zero.
pub open spec fn clamp_low(a: int) -> int {
    if a < 0 { 0 } else { a }
}

/// The effect of the brush on voxel `(x, y, z)` of a `w` x `h` x `d` grid.
pub open spec fn brush_cell(
    st: BrushState,
    w: int,
    h: int,
    d: int,
    tool: SelectedTool,
    x: int,
    y: int,
    z: int,
) -> BrushState {
    if !(0 <= x < w && 0 <= y < h && 0 <= z < d) {
        st
    } else {
        let i = cell_index(w, d, x, y, z);
        let c = st.0[i];
        match brush_placement(tool, c) {
            None => st,
            Some(v) => (
                st.0.update(i, v),
                if cell_eq(c, v) {
                    st.1
                } else {
                    st.1.push((CellChange { x: x as usize, y: y as usize, z: z as usize, old: c, new: v }))
                },
                true,
            ),
        }
    }
}

/// The first `n` brush cells of row `dz` (offsets `0..n` along X).
pub open spec fn brush_row(
    st: BrushState,
    w: int,
    h: int,
    d: int,
    tool: SelectedTool,
    cx: int,
    cz: int,
    r: int,
    y: int,
    dz: int,
    n: int,
) -> BrushState
    decreases n,
{
    if n <= 0 {
        st
    } else {
        brush_cell(
            brush_row(st, w, h, d, tool, cx, cz, r, y, dz, n - 1),
            w, h, d, tool,
            clamp_low(cx + (n - 1) - r),
            y,
            clamp_low(cz + dz - r),
        )
    }
}

/// The first `m` full brush rows.
pub open spec fn brush_rows(
    st: BrushState,
    w: int,
    h: int,
    d: int,
    tool: SelectedTool,
    cx: int,
    cz: int,
    r: int,
    y: int,
    m: int,
) -> BrushState
    decreases m,
{
    if m <= 0 {
        st
    } else {
        brush_row(
            brush_rows(st, w, h, d, tool, cx, cz, r, y, m - 1),
            w, h, d, tool, cx, cz, r, y, m - 1, 2 * r + 1,
        )
    }
}

/// Paints a square brush of radius `radius` centred on column `(cx, cz)` of
/// layer `layer_y`, row by row. Offsets below zero clamp to the grid edge;
/// cells outside the grid and terrain are skipped. Each placed cell is
/// written to the grid and, when it actually changes, recorded as a pending
/// undo change. Returns whether any cell was placed.
pub fn paint_brush(
    grid: &mut Grid3D,
    undo: &mut UndoStack,
    tool: SelectedTool,
    cx: usize,
    cz: usize,
    layer_y: usize,
    radius: usize,
) -> (placed: bool)
    requires
        old(grid).wf(),
        cx + 2 * radius <= usize::MAX,
        cz + 2 * radius <= usize::MAX,
    ensures
        final(grid).width == old(grid).width,
        final(grid).height == old(grid).height,
        final(grid).depth == old(grid).depth,
        final(grid).wf(),
        final(undo).history() == old(undo).history(),
        final(undo).redo_history() == old(undo).redo_history(),
        ({
            let st = brush_rows(
                (old(grid).cells@, old(undo).pending(), false),
                old(grid).width as int,
                old(grid).height as int,
                old(grid).depth as int,
                tool,
                cx as int,
                cz as int,
                radius as int,
                layer_y as int,
                2 * radius + 1,
            );
            &&& final(grid).cells@ == st.0
            &&& final(undo).pending() == st.1
            &&& placed == st.2
        }),
{
    let ghost w = grid.width as int;
    let ghost h = grid.height as int;
    let ghost d = grid.depth as int;
    let ghost st0: BrushState = (grid.cells@, undo.pending(), false);
    let ghost r = radius as int;
    let mut placed = false;
    let mut dz: usize = 0;
    while dz <= 2 * radius
        invariant
            grid.wf(),
            w == grid.width,
            h == grid.height,
            d == grid.depth,
            r == radius,
            cx + 2 * radius <= usize::MAX,
            cz + 2 * radius <= usize::MAX,
            dz <= 2 * radius + 1,
            undo.history() == old(undo).history(),
            undo.redo_history() == old(undo).redo_history(),
            (grid.cells@, undo.pending(), placed)
                == brush_rows(st0, w, h, d, tool, cx as int, cz as int, r, layer_y as int, dz as int),
        decreases 2 * radius + 1 - dz,
    {
        let mut dx: usize = 0;
        while dx <= 2 * radius
            invariant
                grid.wf(),
                w == grid.width,
                h == grid.height,
                d == grid.depth,
                r == radius,
                cx + 2 * radius <= usize::MAX,
                cz + 2 * radius <= usize::MAX,
                dz <= 2 * radius,
                dx <= 2 * radius + 1,
                undo.history() == old(undo).history(),
                undo.redo_history() == old(undo).redo_history(),
                (grid.cells@, undo.pending(), placed) == brush_row(
                    brush_rows(st0, w, h, d, tool, cx as int, cz as int, r, layer_y as int, dz as int),
                    w, h, d, tool, cx as int, cz as int, r, layer_y as int, dz as int, dx as int,
                ),
            decreases 2 * radius + 1 - dx,
        {
            let bx = (cx + dx).saturating_sub(radius);
            let bz = (cz + dz).saturating_sub(radius);
            let ay = layer_y;
            assert(bx == clamp_low(cx + dx - r));
            assert(bz == clamp_low(cz + dz - r));
            let ghost pre: BrushState = (grid.cells@, undo.pending(), placed);
            if bx < grid.width && ay < grid.height && bz < grid.depth {
                proof {
                    lemma_cell_index_bounds(w, h, d, bx as int, ay as int, bz as int);
                }
                let current = *grid.get_cell(bx, ay, bz);
                match placement(&tool, &current) {
                    None => {},
                    Some(new_cell) => {
                        undo.record(bx, ay, bz, current, new_cell);
                        grid.set_cell(bx, ay, bz, new_cell);
                        placed = true;
                    },
                }
            }
            proof {
                assert((grid.cells@, undo.pending(), placed)
                    == brush_cell(pre, w, h, d, tool, bx as int, ay as int, bz as int));
            }
            dx = dx + 1;
        }
        dz = dz + 1;
    }
    placed
}

proof fn lemma_brush_cell_spares(
    st: BrushState,
    w: int,
    h: int,
    d: int,
    tool: SelectedTool,
    x: int,
    y: int,
    z: int,
    p: int,
)
    requires
        st.0.len() == w * h * d,
        0 <= p < st.0.len(),
        brush_placement(tool, st.0[p]) is None,
    ensures
        brush_cell(st, w, h, d, tool, x, y, z).0.len() == st.0.len(),
        brush_cell(st, w, h, d, tool, x, y, z).0[p] == st.0[p],
{
    if 0 <= x < w && 0 <= y < h && 0 <= z < d {
        lemma_cell_index_bounds(w, h, d, x, y, z);
    }
}

proof fn lemma_brush_row_spares(
    st: BrushState,
    w: int,
    h: int,
    d: int,
    tool: SelectedTool,
    cx: int,
    cz: int,
    r: int,
    y: int,
    dz: int,
    n: int,
    p: int,
)
    requires
        st.0.len() == w * h * d,
        0 <= p < st.0.len(),
        brush_placement(tool, st.0[p]) is None,
    ensures
        brush_row(st, w, h, d, tool, cx, cz, r, y, dz, n).0.len() == st.0.len(),
        brush_row(st, w, h, d, tool, cx, cz, r, y, dz, n).0[p] == st.0[p],
    decreases n,
{
    if n > 0 {
        lemma_brush_row_spares(st, w, h, d, tool, cx, cz, r, y, dz, n - 1, p);
        let prev = brush_row(st, w, h, d, tool, cx, cz, r, y, dz, n - 1);
        lemma_brush_cell_spares(
            prev, w, h, d, tool, clamp_low(cx + (n - 1) - r), y, clamp_low(cz + dz - r), p);
    }
}

proof fn lemma_brush_rows_spares(
    st: BrushState,
    w: int,
    h: int,
    d: int,
    tool: SelectedTool,
    cx: int,
    cz: int,
    r: int,
    y: int,
    m: int,
    p: int,
)
    requires
        st.0.len() == w * h * d,
        0 <= p < st.0.len(),
        brush_placement(tool, st.0[p]) is None,
    ensures
        brush_rows(st, w, h, d, tool, cx, cz, r, y, m).0.len() == st.0.len(),
        brush_rows(st, w, h, d, tool, cx, cz, r, y, m).0[p] == st.0[p],
    decreases m,
{
    if m > 0 {
        lemma_brush_rows_spares(st, w, h, d, tool, cx, cz, r, y, m - 1, p);
        let prev = brush_rows(st, w, h, d, tool, cx, cz, r, y, m - 1);
        lemma_brush_row_spares(prev, w, h, d, tool, cx, cz, r, y, m - 1, 2 * r + 1, p);
    }
}

/// The brush never paints over walls or terrain: whatever the tool, a
/// wall, rock or sand voxel holds the same cell after a dab.
pub proof fn law_brush_spares_terrain(
    st: BrushState,
    w: int,
    h: int,
    d: int,
    tool: SelectedTool,
    cx: int,
    cz: int,
    r: int,
    y: int,
    p: int,
)
    requires
        st.0.len() == w * h * d,
        0 <= p < st.0.len(),
        is_terrain(st.0[p]),
    ensures
        ({
            let after = brush_rows(st, w, h, d, tool, cx, cz, r, y, 2 * r + 1).0;
            after.len() == st.0.len() && after[p] == st.0[p]
        }),
{
    lemma_brush_rows_spares(st, w, h, d, tool, cx, cz, r, y, 2 * r + 1, p);
}

/// Voxel `(x, y, z)` lies in the square a dab of radius `r` centred on
/// column `(cx, cz)` of layer `layer` covers, offsets below zero clamped to
/// the grid edge.
pub open spec fn in_brush_square(cx: int, cz: int, r: int, layer: int, x: int, y: int, z: int) -> bool {
    &&& y == layer
    &&& clamp_low(cx - r) <= x <= cx + r
    &&& clamp_low(cz - r) <= z <= cz + r
}

proof fn lemma_brush_cell_elsewhere(
    st: BrushState,
    w: int,
    h: int,
    d: int,
    tool: SelectedTool,
    bx: int,
    by: int,
    bz: int,
    x: int,
    y: int,
    z: int,
)
    requires
        st.0.len() == w * h * d,
        0 <= x < w && 0 <= y < h && 0 <= z < d,
        !(x == bx && y == by && z == bz),
    ensures
        brush_cell(st, w, h, d, tool, bx, by, bz).0.len() == st.0.len(),
        brush_cell(st, w, h, d, tool, bx, by, bz).0[cell_index(w, d, x, y, z)]
            == st.0[cell_index(w, d, x, y, z)],
{
    lemma_cell_index_bounds(w, h, d, x, y, z);
    if 0 <= bx < w && 0 <= by < h && 0 <= bz < d {
        lemma_cell_index_bounds(w, h, d, bx, by, bz);
        if cell_index(w, d, x, y, z) == cell_index(w, d, bx, by, bz) {
            crate::simulation3d::lemma_cell_index_injective(w, h, d, x, y, z, bx, by, bz);
        }
    }
}

proof fn lemma_brush_row_elsewhere(
    st: BrushState,
    w: int,
    h: int,
    d: int,
    tool: SelectedTool,
    cx: int,
    cz: int,
    r: int,
    layer: int,
    dz: int,
    n: int,
    x: int,
    y: int,
    z: int,
)
    requires
        st.0.len() == w * h * d,
        0 <= x < w && 0 <= y < h && 0 <= z < d,
        0 <= cx,
        0 <= cz,
        0 <= r,
        0 <= dz <= 2 * r,
        n <= 2 * r + 1,
        !in_brush_square(cx, cz, r, layer, x, y, z),
    ensures
        brush_row(st, w, h, d, tool, cx, cz, r, layer, dz, n).0.len() == st.0.len(),
        brush_row(st, w, h, d, tool, cx, cz, r, layer, dz, n).0[cell_index(w, d, x, y, z)]
            == st.0[cell_index(w, d, x, y, z)],
    decreases n,
{
    if n > 0 {
        lemma_brush_row_elsewhere(st, w, h, d, tool, cx, cz, r, layer, dz, n - 1, x, y, z);
        let prev = brush_row(st, w, h, d, tool, cx, cz, r, layer, dz, n - 1);
        let bx = clamp_low(cx + (n - 1) - r);
        let bz = clamp_low(cz + dz - r);
        assert(clamp_low(cx - r) <= bx <= cx + r);
        assert(clamp_low(cz - r) <= bz <= cz + r);
        lemma_brush_cell_elsewhere(prev, w, h, d, tool, bx, layer, bz, x, y, z);
    }
}

proof fn lemma_brush_rows_elsewhere(
    st: BrushState,
    w: int,
    h: int,
    d: int,
    tool: SelectedTool,
    cx: int,
    cz: int,
    r: int,
    layer: int,
    m: int,
    x: int,
    y: int,
    z: int,
)
    requires
        st.0.len() == w * h * d,
        0 <= x < w && 0 <= y < h && 0 <= z < d,
        0 <= cx,
        0 <= cz,
        0 <= r,
        m <= 2 * r + 1,
        !in_brush_square(cx, cz, r, layer, x, y, z),
    ensures
        brush_rows(st, w, h, d, tool, cx, cz, r, layer, m).0.len() == st.0.len(),
        brush_rows(st, w, h, d, tool, cx, cz, r, layer, m).0[cell_index(w, d, x, y, z)]
            == st.0[cell_index(w, d, x, y, z)],
    decreases m,
{
    if m > 0 {
        lemma_brush_rows_elsewhere(st, w, h, d, tool, cx, cz, r, layer, m - 1, x, y, z);
        let prev = brush_rows(st, w, h, d, tool, cx, cz, r, layer, m - 1);
        lemma_brush_row_elsewhere(prev, w, h, d, tool, cx, cz, r, layer, m - 1, 2 * r + 1, x, y, z);
    }
}

/// A dab only touches its square: every voxel of the grid outside the
/// square of radius `r` around column `(cx, cz)` on the painted layer
/// (offsets below zero clamped to the grid edge) keeps its cell.
pub proof fn law_brush_stays_in_square(
    st: BrushState,
    w: int,
    h: int,
    d: int,
    tool: SelectedTool,
    cx: int,
    cz: int,
    r: int,
    layer: int,
    x: int,
    y: int,
    z: int,
)
    requires
        st.0.len() == w * h * d,
        0 <= x < w && 0 <= y < h && 0 <= z < d,
        0 <= cx,
        0 <= cz,
        0 <= r,
        !in_brush_square(cx, cz, r, layer, x, y, z),
    ensures
        ({
            let after = brush_rows(st, w, h, d, tool, cx, cz, r, layer, 2 * r + 1).0;
            after.len() == st.0.len() && after[cell_index(w, d, x, y, z)] == st.0[cell_index(w, d, x, y, z)]
        }),
{
    lemma_brush_rows_elsewhere(st, w, h, d, tool, cx, cz, r, layer, 2 * r + 1, x, y, z);
}

/// A block never replaces an object: with a block tool, a voxel holding
/// an object keeps it (weight included) through a dab.
pub proof fn law_block_spares_objects(
    st: BrushState,
    w: int,
    h: int,
    d: int,
    weight: u32,
    cx: int,
    cz: int,
    r: int,
    y: int,
    p: int,
)
    requires
        st.0.len() == w * h * d,
        0 <= p < st.0.len(),
        st.0[p] is Object,
    ensures
        ({
            let after = brush_rows(st, w, h, d, SelectedTool::Block(weight), cx, cz, r, y, 2 * r + 1).0;
            after.len() == st.0.len() && after[p] == st.0[p]
        }),
{
    lemma_brush_rows_spares(st, w, h, d, SelectedTool::Block(weight), cx, cz, r, y, 2 * r + 1, p);
}

// ---------------------------------------------------------------------------
// Undoing a brush stroke
// ---------------------------------------------------------------------------

/// `(cells, pending)` is what a stroke with `tool` made of `start`: the
/// pending changes touch distinct voxels, each remembers the value its voxel
/// held at the start, each wrote a value the tool leaves alone, and the
/// cells are the start with the changes replayed.
pub open spec fn stroke_faithful(
    start: Seq<Cell>,
    cells: Seq<Cell>,
    pending: Seq<CellChange>,
    w: int,
    h: int,
    d: int,
    tool: SelectedTool,
) -> bool {
    &&& start.len() == w * h * d
    &&& changes_within(w, h, d, pending)
    &&& distinct_positions(pending)
    &&& forall|i: int| #![trigger pending[i]] 0 <= i < pending.len() ==> {
        &&& pending[i].old == start[cell_index(w, d, pending[i].x as int, pending[i].y as int, pending[i].z as int)]
        &&& (brush_placement(tool, pending[i].new) is None
            || brush_placement(tool, pending[i].new) == Some(pending[i].new))
    }
    &&& cells == replay(start, w, d, pending)
}

/// A stroke that has not changed anything yet is faithful.
pub proof fn lemma_stroke_starts_faithful(start: Seq<Cell>, w: int, h: int, d: int, tool: SelectedTool)
    requires
        start.len() == w * h * d,
    ensures
        stroke_faithful(start, start, Seq::<CellChange>::empty(), w, h, d, tool),
{
}

proof fn lemma_brush_cell_faithful(
    start: Seq<Cell>,
    st: BrushState,
    w: int,
    h: int,
    d: int,
    tool: SelectedTool,
    x: int,
    y: int,
    z: int,
)
    requires
        stroke_faithful(start, st.0, st.1, w, h, d, tool),
        0 <= x <= usize::MAX,
        0 <= y <= usize::MAX,
        0 <= z <= usize::MAX,
    ensures
        stroke_faithful(
            start,
            brush_cell(st, w, h, d, tool, x, y, z).0,
            brush_cell(st, w, h, d, tool, x, y, z).1,
            w, h, d, tool,
        ),
{
    if 0 <= x < w && 0 <= y < h && 0 <= z < d {
        let i = cell_index(w, d, x, y, z);
        lemma_cell_index_bounds(w, h, d, x, y, z);
        let c = st.0[i];
        let pend = st.1;
        match brush_placement(tool, c) {
            None => {},
            Some(v) => {
                lemma_placement_settles(tool, c);
                lemma_placement_eq(tool, c);
                lemma_replay_point(start, w, h, d, pend, i);
                lemma_last_touch_range(w, d, pend, i);
                let t = last_touch(w, d, pend, i);
                if cell_eq(c, v) {
                    assert(st.0.update(i, v) =~= st.0);
                } else {
                    let ch = CellChange { x: x as usize, y: y as usize, z: z as usize, old: c, new: v };
                    let np = pend.push(ch);
                    if t >= 0 {
                        // the voxel was already painted: it holds the tool's own value
                        assert(c == pend[t].new);
                        assert(false);
                    }
                    assert(c == start[i]);
                    assert(np.drop_last() =~= pend);
                    assert forall|a: int, b: int| 0 <= a < b < np.len() implies !(
                        np[a].x == np[b].x && np[a].y == np[b].y && np[a].z == np[b].z) by {
                        if b == np.len() - 1 {
                            assert(np[a] == pend[a]);
                            if np[a].x == np[b].x && np[a].y == np[b].y && np[a].z == np[b].z {
                                assert(change_index(w, d, pend[a]) == i);
                            }
                        } else {
                            assert(np[a] == pend[a] && np[b] == pend[b]);
                        }
                    }
                    assert forall|k: int| #![trigger np[k]] 0 <= k < np.len() implies {
                        &&& 0 <= np[k].x < w
                        &&& 0 <= np[k].y < h
                        &&& 0 <= np[k].z < d
                    } by {
                        if k < pend.len() {
                            assert(np[k] == pend[k]);
                        }
                    }
                    assert forall|k: int| #![trigger np[k]] 0 <= k < np.len() implies {
                        &&& np[k].old == start[cell_index(w, d, np[k].x as int, np[k].y as int, np[k].z as int)]
                        &&& (brush_placement(tool, np[k].new) is None
                            || brush_placement(tool, np[k].new) == Some(np[k].new))
                    } by {
                        if k < pend.len() {
                            assert(np[k] == pend[k]);
                        }
                    }
                }
            },
        }
    }
}

proof fn lemma_brush_row_faithful(
    start: Seq<Cell>,
    st: BrushState,
    w: int,
    h: int,
    d: int,
    tool: SelectedTool,
    cx: int,
    cz: int,
    r: int,
    y: int,
    dz: int,
    n: int,
)
    requires
        stroke_faithful(start, st.0, st.1, w, h, d, tool),
        0 <= cx,
        0 <= cz,
        0 <= r,
        0 <= y <= usize::MAX,
        0 <= dz <= 2 * r,
        n <= 2 * r + 1,
        cx + 2 * r <= usize::MAX,
        cz + 2 * r <= usize::MAX,
    ensures
        ({
            let st2 = brush_row(st, w, h, d, tool, cx, cz, r, y, dz, n);
            stroke_faithful(start, st2.0, st2.1, w, h, d, tool)
        }),
    decreases n,
{
    if n > 0 {
        lemma_brush_row_faithful(start, st, w, h, d, tool, cx, cz, r, y, dz, n - 1);
        let prev = brush_row(st, w, h, d, tool, cx, cz, r, y, dz, n - 1);
        lemma_brush_cell_faithful(
            start, prev, w, h, d, tool,
            clamp_low(cx + (n - 1) - r), y, clamp_low(cz + dz - r),
        );
    }
}

proof fn lemma_brush_rows_faithful(
    start: Seq<Cell>,
    st: BrushState,
    w: int,
    h: int,
    d: int,
    tool: SelectedTool,
    cx: int,
    cz: int,
    r: int,
    y: int,
    m: int,
)
    requires
        stroke_faithful(start, st.0, st.1, w, h, d, tool),
        0 <= cx,
        0 <= cz,
        0 <= r,
        0 <= y <= usize::MAX,
        m <= 2 * r + 1,
        cx + 2 * r <= usize::MAX,
        cz + 2 * r <= usize::MAX,
    ensures
        ({
            let st2 = brush_rows(st, w, h, d, tool, cx, cz, r, y, m);
            stroke_faithful(start, st2.0, st2.1, w, h, d, tool)
        }),
    decreases m,
{
    if m > 0 {
        lemma_brush_rows_faithful(start, st, w, h, d, tool, cx, cz, r, y, m - 1);
        let prev = brush_rows(st, w, h, d, tool, cx, cz, r, y, m - 1);
        lemma_brush_row_faithful(start, prev, w, h, d, tool, cx, cz, r, y, m - 1, 2 * r + 1);
    }
}

/// Painting with the stroke's own tool keeps the stroke faithful to the
/// grid it started from: however many brush dabs a drag makes, each voxel
/// is recorded at most once, with its value from before the stroke.
pub proof fn law_brush_keeps_stroke_faithful(
    start: Seq<Cell>,
    st: BrushState,
    w: int,
    h: int,
    d: int,
    tool: SelectedTool,
    cx: int,
    cz: int,
    r: int,
    y: int,
)
    requires
        stroke_faithful(start, st.0, st.1, w, h, d, tool),
        0 <= cx,
        0 <= cz,
        0 <= r,
        0 <= y <= usize::MAX,
        cx + 2 * r <= usize::MAX,
        cz + 2 * r <= usize::MAX,
    ensures
        ({
            let st2 = brush_rows(st, w, h, d, tool, cx, cz, r, y, 2 * r + 1);
            stroke_faithful(start, st2.0, st2.1, w, h, d, tool)
        }),
{
    lemma_brush_rows_faithful(start, st, w, h, d, tool, cx, cz, r, y, 2 * r + 1);
}

/// Undoing a stroke restores the grid it started from: writing back the
/// old values of a faithful stroke's changes gives the starting cells.
pub proof fn law_stroke_undo_restores(
    start: Seq<Cell>,
    cells: Seq<Cell>,
    pending: Seq<CellChange>,
    w: int,
    h: int,
    d: int,
    tool: SelectedTool,
)
    requires
        stroke_faithful(start, cells, pending, w, h, d, tool),
    ensures
        restore(cells, w, d, pending) == start,
{
    crate::undo::lemma_apply_len(start, w, h, d, pending);
    assert forall|i: int| 0 <= i < pending.len()
        && first_touch(w, d, pending, change_index(w, d, pending[i])) == i
        implies #[trigger] pending[i].old == start[change_index(w, d, pending[i])] by {}
    assert forall|p: int| 0 <= p < cells.len() && first_touch(w, d, pending, p) < 0
        implies #[trigger] cells[p] == start[p] by {
        lemma_replay_point(start, w, h, d, pending, p);
        lemma_touch_agree(w, d, pending, p);
    }
    law_undo_restores(start, cells, w, h, d, pending);
}

} // verus!
