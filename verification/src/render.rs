use vstd::prelude::*;

use crate::simulation::Cell;
use crate::simulation3d::{cell_index, lemma_cell_index_bounds, lemma_cell_index_injective, Grid3D};

verus! {

/// The voxel categories that each get a mesh of their own.
#[derive(Clone, Copy, Debug, PartialEq, Eq, Structural)]
pub enum VoxelKind {
    Wall,
    Rock,
    Sand,
    Spring,
    Drain,
    Building,
    Water,
    Object,
}

/// Whether cell `c` belongs to mesh category `kind`.
pub open spec fn kind_matches(kind: VoxelKind, c: Cell) -> bool {
    match kind {
        VoxelKind::Wall => c is Wall,
        VoxelKind::Rock => c is Rock,
        VoxelKind::Sand => c is Sand,
        VoxelKind::Spring => c is Spring,
        VoxelKind::Drain => c is Drain,
        VoxelKind::Building => c is Building,
        VoxelKind::Water => c is Water,
        VoxelKind::Object => c is Object,
    }
}

/// Cells a face next to them shows through.
pub open spec fn is_transparent(c: Cell) -> bool {
    c is Air || c is Drain || c is Sand
}

/// Offset to the neighbour behind each face, in mesh order:
/// +Y, -Y, +X, -X, +Z, -Z.
pub open spec fn face_offset(f: int) -> (int, int, int) {
    if f == 0 {
        (0, 1, 0)
    } else if f == 1 {
        (0, -1, 0)
    } else if f == 2 {
        (1, 0, 0)
    } else if f == 3 {
        (-1, 0, 0)
    } else if f == 4 {
        (0, 0, 1)
    } else {
        (0, 0, -1)
    }
}

/// Face `f` of voxel `(x, y, z)` is drawn: its neighbour lies outside the
/// grid or is transparent.
pub open spec fn face_exposed(g: &Grid3D, x: int, y: int, z: int, f: int) -> bool {
    let o = face_offset(f);
    !g.in_grid(x + o.0, y + o.1, z + o.2) || is_transparent(g.cell(x + o.0, y + o.1, z + o.2))
}

/// Which neighbours let a face show, stated cell kind by cell kind: face
/// `f` of an in-grid voxel is drawn exactly when the voxel next to it in
/// that direction (+Y, -Y, +X, -X, +Z, -Z) lies off the grid or holds air,
/// a drain or sand. Water, objects, walls, springs, buildings and rock all
/// hide it; so two touching water voxels never draw their shared faces.
pub proof fn law_face_shows_through(g: &Grid3D, x: int, y: int, z: int, f: int)
    requires
        g.in_grid(x, y, z),
        0 <= f < 6,
    ensures
        ({
            let (a, b, c) = if f == 0 {
                (x, y + 1, z)
            } else if f == 1 {
                (x, y - 1, z)
            } else if f == 2 {
                (x + 1, y, z)
            } else if f == 3 {
                (x - 1, y, z)
            } else if f == 4 {
                (x, y, z + 1)
            } else {
                (x, y, z - 1)
            };
            face_exposed(g, x, y, z, f) <==> (!g.in_grid(a, b, c) || g.cell(a, b, c) is Air
                || g.cell(a, b, c) is Drain || g.cell(a, b, c) is Sand)
        }),
{
}

/// Order key of a listed face: voxels in storage order, faces in mesh order.
pub open spec fn face_key(g: &Grid3D, e: (usize, usize, usize, u8)) -> int {
    cell_index(g.width as int, g.depth as int, e.0 as int, e.1 as int, e.2 as int) * 6 + e.3
}

/// Whether a face neighbour cell lets the face show.
pub fn transparent(c: &Cell) -> (b: bool)
    ensures
        b == is_transparent(*c),
{
    matches!(c, Cell::Air | Cell::Drain | Cell::Sand)
}

fn matches_kind(kind: VoxelKind, c: &Cell) -> (b: bool)
    ensures
        b == kind_matches(kind, *c),
{
    match kind {
        VoxelKind::Wall => matches!(c, Cell::Wall),
        VoxelKind::Rock => matches!(c, Cell::Rock),
        VoxelKind::Sand => matches!(c, Cell::Sand),
        VoxelKind::Spring => matches!(c, Cell::Spring),
        VoxelKind::Drain => matches!(c, Cell::Drain),
        VoxelKind::Building => matches!(c, Cell::Building { .. }),
        VoxelKind::Water => matches!(c, Cell::Water(_)),
        VoxelKind::Object => matches!(c, Cell::Object(_)),
    }
}

/// Whether face `f` of voxel `(x, y, z)` is drawn.
pub fn face_shows(g: &Grid3D, x: usize, y: usize, z: usize, f: u8) -> (b: bool)
    requires
        g.wf(),
        g.in_grid(x as int, y as int, z as int),
        f < 6,
    ensures
        b == face_exposed(g, x as int, y as int, z as int, f as int),
{
    if f == 0 {
        if y + 1 < g.height { transparent(g.get_cell(x, y + 1, z)) } else { true }
    } else if f == 1 {
        if y > 0 { transparent(g.get_cell(x, y - 1, z)) } else { true }
    } else if f == 2 {
        if x + 1 < g.width { transparent(g.get_cell(x + 1, y, z)) } else { true }
    } else if f == 3 {
        if x > 0 { transparent(g.get_cell(x - 1, y, z)) } else { true }
    } else if f == 4 {
        if z + 1 < g.depth { transparent(g.get_cell(x, y, z + 1)) } else { true }
    } else {
        if z > 0 { transparent(g.get_cell(x, y, z - 1)) } else { true }
    }
}

/// The faces a face-culled mesh of category `kind` draws: every face of a
/// matching voxel whose neighbour is transparent or off the grid, listed
/// voxel by voxel in storage order (Y, then Z, then X) and face by face in
/// mesh order.
pub fn visible_faces(grid: &Grid3D, kind: VoxelKind) -> (r: Vec<(usize, usize, usize, u8)>)
    requires
        grid.wf(),
    ensures
        forall|k: int| #![trigger r@[k]] 0 <= k < r@.len() ==> {
            &&& grid.in_grid(r@[k].0 as int, r@[k].1 as int, r@[k].2 as int)
            &&& r@[k].3 < 6
            &&& kind_matches(kind, grid.cell(r@[k].0 as int, r@[k].1 as int, r@[k].2 as int))
            &&& face_exposed(grid, r@[k].0 as int, r@[k].1 as int, r@[k].2 as int, r@[k].3 as int)
        },
        forall|a: int, b: int| 0 <= a < b < r@.len() ==> face_key(grid, r@[a]) < face_key(grid, r@[b]),
        forall|x: int, y: int, z: int, f: int|
            grid.in_grid(x, y, z) && 0 <= f < 6 && kind_matches(kind, #[trigger] grid.cell(x, y, z))
                && #[trigger] face_exposed(grid, x, y, z, f)
                ==> exists|k: int| 0 <= k < r@.len() && r@[k] == (x as usize, y as usize, z as usize, f as u8),
{
    let ghost w = grid.width as int;
    let ghost h = grid.height as int;
    let ghost d = grid.depth as int;
    let n = grid.cells.len();
    let mut out: Vec<(usize, usize, usize, u8)> = Vec::new();
    let mut i: usize = 0;
    let mut x: usize = 0;
    let mut y: usize = 0;
    let mut z: usize = 0;
    proof {
        assert(0 <= w * h * d) by (nonlinear_arith) requires w >= 0, h >= 0, d >= 0;
        if n > 0 {
            assert(w > 0 && h > 0 && d > 0) by (nonlinear_arith)
                requires n == w * h * d, n > 0, w >= 0, h >= 0, d >= 0;
            assert(cell_index(w, d, 0, 0, 0) == 0) by (nonlinear_arith);
        }
    }
    while i < n
        invariant
            grid.wf(),
            w == grid.width,
            h == grid.height,
            d == grid.depth,
            n == w * h * d,
            i <= n,
            i < n ==> grid.in_grid(x as int, y as int, z as int),
            i < n ==> i == cell_index(w, d, x as int, y as int, z as int),
            forall|k: int| #![trigger out@[k]] 0 <= k < out@.len() ==> {
                &&& grid.in_grid(out@[k].0 as int, out@[k].1 as int, out@[k].2 as int)
                &&& out@[k].3 < 6
                &&& kind_matches(kind, grid.cell(out@[k].0 as int, out@[k].1 as int, out@[k].2 as int))
                &&& face_exposed(grid, out@[k].0 as int, out@[k].1 as int, out@[k].2 as int, out@[k].3 as int)
                &&& face_key(grid, out@[k]) < 6 * i
            },
            forall|a: int, b: int| 0 <= a < b < out@.len() ==> face_key(grid, out@[a]) < face_key(grid, out@[b]),
            forall|xx: int, yy: int, zz: int, f: int|
                grid.in_grid(xx, yy, zz) && cell_index(w, d, xx, yy, zz) < i && 0 <= f < 6
                    && kind_matches(kind, #[trigger] grid.cell(xx, yy, zz))
                    && #[trigger] face_exposed(grid, xx, yy, zz, f)
                    ==> exists|k: int| 0 <= k < out@.len()
                        && out@[k] == (xx as usize, yy as usize, zz as usize, f as u8),
        decreases n - i,
    {
        proof {
            lemma_cell_index_bounds(w, h, d, x as int, y as int, z as int);
        }
        let c = &grid.cells[i];
        assert(*c == grid.cell(x as int, y as int, z as int));
        if matches_kind(kind, c) {
            let mut f: u8 = 0;
            while f < 6
                invariant
                    grid.wf(),
                    w == grid.width,
                    h == grid.height,
                    d == grid.depth,
                    i < n,
                    grid.in_grid(x as int, y as int, z as int),
                    i == cell_index(w, d, x as int, y as int, z as int),
                    kind_matches(kind, grid.cell(x as int, y as int, z as int)),
                    f <= 6,
                    forall|k: int| #![trigger out@[k]] 0 <= k < out@.len() ==> {
                        &&& grid.in_grid(out@[k].0 as int, out@[k].1 as int, out@[k].2 as int)
                        &&& out@[k].3 < 6
                        &&& kind_matches(kind, grid.cell(out@[k].0 as int, out@[k].1 as int, out@[k].2 as int))
                        &&& face_exposed(grid, out@[k].0 as int, out@[k].1 as int, out@[k].2 as int, out@[k].3 as int)
                        &&& face_key(grid, out@[k]) < 6 * i + f
                    },
                    forall|a: int, b: int| 0 <= a < b < out@.len() ==> face_key(grid, out@[a]) < face_key(grid, out@[b]),
                    forall|xx: int, yy: int, zz: int, ff: int|
                        grid.in_grid(xx, yy, zz) && 0 <= ff < 6
                            && (cell_index(w, d, xx, yy, zz) < i || (cell_index(w, d, xx, yy, zz) == i && ff < f))
                            && kind_matches(kind, #[trigger] grid.cell(xx, yy, zz))
                            && #[trigger] face_exposed(grid, xx, yy, zz, ff)
                            ==> exists|k: int| 0 <= k < out@.len()
                                && out@[k] == (xx as usize, yy as usize, zz as usize, ff as u8),
                decreases 6 - f,
            {
                let ghost before = out@;
                if face_shows(grid, x, y, z, f) {
                    out.push((x, y, z, f));
                    proof {
                        assert forall|xx: int, yy: int, zz: int, ff: int|
                            grid.in_grid(xx, yy, zz) && 0 <= ff < 6
                                && (cell_index(w, d, xx, yy, zz) < i || (cell_index(w, d, xx, yy, zz) == i && ff < f + 1))
                                && kind_matches(kind, #[trigger] grid.cell(xx, yy, zz))
                                && #[trigger] face_exposed(grid, xx, yy, zz, ff)
                            implies exists|k: int| 0 <= k < out@.len()
                                && out@[k] == (xx as usize, yy as usize, zz as usize, ff as u8) by {
                            if cell_index(w, d, xx, yy, zz) == i && ff == f {
                                lemma_cell_index_injective(w, h, d, xx, yy, zz, x as int, y as int, z as int);
                                assert(out@[out@.len() - 1] == (xx as usize, yy as usize, zz as usize, ff as u8));
                            } else {
                                let k = choose|k: int| 0 <= k < before.len()
                                    && before[k] == (xx as usize, yy as usize, zz as usize, ff as u8);
                                assert(out@[k] == before[k]);
                            }
                        }
                    }
                } else {
                    proof {
                        assert forall|xx: int, yy: int, zz: int, ff: int|
                            grid.in_grid(xx, yy, zz) && 0 <= ff < 6
                                && (cell_index(w, d, xx, yy, zz) < i || (cell_index(w, d, xx, yy, zz) == i && ff < f + 1))
                                && kind_matches(kind, #[trigger] grid.cell(xx, yy, zz))
                                && #[trigger] face_exposed(grid, xx, yy, zz, ff)
                            implies exists|k: int| 0 <= k < out@.len()
                                && out@[k] == (xx as usize, yy as usize, zz as usize, ff as u8) by {
                            if cell_index(w, d, xx, yy, zz) == i && ff == f {
                                lemma_cell_index_injective(w, h, d, xx, yy, zz, x as int, y as int, z as int);
                            }
                        }
                    }
                }
                f = f + 1;
            }
        } else {
            proof {
                assert forall|xx: int, yy: int, zz: int, f: int|
                    grid.in_grid(xx, yy, zz) && cell_index(w, d, xx, yy, zz) < i + 1 && 0 <= f < 6
                        && kind_matches(kind, #[trigger] grid.cell(xx, yy, zz))
                        && #[trigger] face_exposed(grid, xx, yy, zz, f)
                    implies exists|k: int| 0 <= k < out@.len()
                        && out@[k] == (xx as usize, yy as usize, zz as usize, f as u8) by {
                    if cell_index(w, d, xx, yy, zz) == i {
                        lemma_cell_index_injective(w, h, d, xx, yy, zz, x as int, y as int, z as int);
                    }
                }
            }
        }
        // advance the odometer to the next voxel in storage order
        let ghost (ox, oy, oz) = (x as int, y as int, z as int);
        i = i + 1;
        if x + 1 < grid.width {
            x = x + 1;
        } else {
            x = 0;
            if z + 1 < grid.depth {
                z = z + 1;
                proof {
                    assert(cell_index(w, d, 0, oy, oz + 1) == cell_index(w, d, w - 1, oy, oz) + 1) by (nonlinear_arith)
                        requires w >= 1;
                }
            } else {
                z = 0;
                y = y + 1;
                proof {
                    assert(cell_index(w, d, 0, oy + 1, 0) == cell_index(w, d, w - 1, oy, d - 1) + 1) by (nonlinear_arith)
                        requires w >= 1, d >= 1;
                    if i < n {
                        assert(oy + 1 < h) by (nonlinear_arith)
                            requires
                                i == cell_index(w, d, 0, oy + 1, 0),
                                i < n,
                                n == w * h * d,
                                w >= 1, d >= 1, oy >= 0;
                    }
                }
            }
        }
    }
    proof {
        assert forall|xx: int, yy: int, zz: int, f: int|
            grid.in_grid(xx, yy, zz) && 0 <= f < 6 && kind_matches(kind, #[trigger] grid.cell(xx, yy, zz))
                && #[trigger] face_exposed(grid, xx, yy, zz, f)
            implies exists|k: int| 0 <= k < out@.len()
                && out@[k] == (xx as usize, yy as usize, zz as usize, f as u8) by {
            lemma_cell_index_bounds(w, h, d, xx, yy, zz);
        }
    }
    out
}

/// Column `(gx, gz)` lies on the grid and inside the square of radius `r`
/// around `(cx, cz)`.
pub open spec fn in_hover(g: &Grid3D, cx: int, cz: int, r: int, gx: int, gz: int) -> bool {
    &&& 0 <= gx < g.width
    &&& 0 <= gz < g.depth
    &&& cx - r <= gx <= cx + r
    &&& cz - r <= gz <= cz + r
}

/// Column `a` comes before column `b` in row order (Z, then X).
pub open spec fn column_before(a: (usize, usize), b: (usize, usize)) -> bool {
    a.1 < b.1 || (a.1 == b.1 && a.0 < b.0)
}

/// The columns the hover cursor outlines for a brush of radius `radius`
/// centred on `(cx, cz)`: every column of the square that lies on the grid,
/// row by row. Unlike the brush itself, the outline is not clamped at the
/// grid edge: columns past it are left out.
pub fn hover_columns(grid: &Grid3D, cx: usize, cz: usize, radius: usize) -> (r: Vec<(usize, usize)>)
    requires
        cx + 2 * radius <= usize::MAX,
        cz + 2 * radius <= usize::MAX,
    ensures
        forall|k: int| 0 <= k < r@.len()
            ==> in_hover(grid, cx as int, cz as int, radius as int, #[trigger] r@[k].0 as int, r@[k].1 as int),
        forall|a: int, b: int| 0 <= a < b < r@.len() ==> column_before(r@[a], r@[b]),
        forall|gx: int, gz: int| #[trigger] in_hover(grid, cx as int, cz as int, radius as int, gx, gz)
            ==> exists|k: int| 0 <= k < r@.len() && r@[k] == (gx as usize, gz as usize),
{
    let ghost (icx, icz, ir) = (cx as int, cz as int, radius as int);
    let mut out: Vec<(usize, usize)> = Vec::new();
    let mut dz: usize = 0;
    while dz <= 2 * radius
        invariant
            cx + 2 * radius <= usize::MAX,
            cz + 2 * radius <= usize::MAX,
            icx == cx, icz == cz, ir == radius,
            dz <= 2 * radius + 1,
            forall|k: int| #![trigger out@[k]] 0 <= k < out@.len() ==> {
                &&& in_hover(grid, icx, icz, ir, out@[k].0 as int, out@[k].1 as int)
                &&& out@[k].1 < icz + dz - ir
            },
            forall|a: int, b: int| 0 <= a < b < out@.len() ==> column_before(out@[a], out@[b]),
            forall|gx: int, gz: int| #[trigger] in_hover(grid, icx, icz, ir, gx, gz) && gz < icz + dz - ir
                ==> exists|k: int| 0 <= k < out@.len() && out@[k] == (gx as usize, gz as usize),
        decreases 2 * radius + 1 - dz,
    {
        let mut dx: usize = 0;
        while dx <= 2 * radius
            invariant
                cx + 2 * radius <= usize::MAX,
                cz + 2 * radius <= usize::MAX,
                icx == cx, icz == cz, ir == radius,
                dz <= 2 * radius,
                dx <= 2 * radius + 1,
                forall|k: int| #![trigger out@[k]] 0 <= k < out@.len() ==> {
                    &&& in_hover(grid, icx, icz, ir, out@[k].0 as int, out@[k].1 as int)
                    &&& out@[k].1 < icz + dz - ir
                        || (out@[k].1 == icz + dz - ir && out@[k].0 < icx + dx - ir)
                },
                forall|a: int, b: int| 0 <= a < b < out@.len() ==> column_before(out@[a], out@[b]),
                forall|gx: int, gz: int| #[trigger] in_hover(grid, icx, icz, ir, gx, gz)
                    && (gz < icz + dz - ir || (gz == icz + dz - ir && gx < icx + dx - ir))
                    ==> exists|k: int| 0 <= k < out@.len() && out@[k] == (gx as usize, gz as usize),
            decreases 2 * radius + 1 - dx,
        {
            let ghost before = out@;
            if cx + dx >= radius && cz + dz >= radius {
                let gx = cx + dx - radius;
                let gz = cz + dz - radius;
                if gx < grid.width && gz < grid.depth {
                    out.push((gx, gz));
                    proof {
                        assert forall|gx2: int, gz2: int| #[trigger] in_hover(grid, icx, icz, ir, gx2, gz2)
                            && (gz2 < icz + dz - ir || (gz2 == icz + dz - ir && gx2 < icx + dx + 1 - ir))
                            implies exists|k: int| 0 <= k < out@.len() && out@[k] == (gx2 as usize, gz2 as usize) by {
                            if gz2 == gz && gx2 == gx {
                                assert(out@[out@.len() - 1] == (gx2 as usize, gz2 as usize));
                            } else {
                                let k = choose|k: int| 0 <= k < before.len() && before[k] == (gx2 as usize, gz2 as usize);
                                assert(out@[k] == before[k]);
                            }
                        }
                        assert forall|k: int| #![trigger out@[k]] 0 <= k < out@.len() implies {
                            &&& in_hover(grid, icx, icz, ir, out@[k].0 as int, out@[k].1 as int)
                            &&& out@[k].1 < icz + dz - ir
                                || (out@[k].1 == icz + dz - ir && out@[k].0 < icx + dx + 1 - ir)
                        } by {
                            if k < before.len() {
                                assert(out@[k] == before[k]);
                            }
                        }
                        assert forall|a: int, b: int| 0 <= a < b < out@.len() implies column_before(out@[a], out@[b]) by {
                            if b == out@.len() - 1 {
                                assert(out@[a] == before[a]);
                                assert(before[a].1 < icz + dz - ir
                                    || (before[a].1 == icz + dz - ir && before[a].0 < icx + dx - ir));
                            } else {
                                assert(out@[a] == before[a] && out@[b] == before[b]);
                            }
                        }
                    }
                }
            }
            dx = dx + 1;
        }
        dz = dz + 1;
    }
    out
}

/// The voxel under the cursor on the active layer, given the grid column
/// `(gx, gz)` the cursor ray hits there; nothing when that column lies off
/// the grid.
pub fn cursor_cell(grid: &Grid3D, gx: i32, gz: i32, active_layer_y: usize) -> (r: Option<(usize, usize, usize)>)
    ensures
        r == (if 0 <= gx < grid.width && 0 <= gz < grid.depth {
            Some((gx as usize, active_layer_y, gz as usize))
        } else {
            None
        }),
{
    if gx < 0 || gz < 0 || gx as usize >= grid.width || gz as usize >= grid.depth {
        return None;
    }
    Some((gx as usize, active_layer_y, gz as usize))
}

} // verus!
