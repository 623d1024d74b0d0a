use bluerush::simulation::Cell;
use bluerush::simulation3d::{column_changes, wall_column_changes, Grid3D};

#[test]
fn blank_grid_is_all_air() {
    let g = Grid3D::blank(4, 3, 5);
    assert_eq!(g.width, 4);
    assert_eq!(g.height, 3);
    assert_eq!(g.depth, 5);
    assert!(g.cells.iter().all(|c| matches!(c, Cell::Air)));
}

#[test]
fn idx_round_trips() {
    let g = Grid3D::blank(10, 8, 12);
    let (x, y, z) = (3, 5, 7);
    let i = g.idx(x, y, z);
    assert_eq!(i, y * g.width * g.depth + z * g.width + x);
}

#[test]
fn wall_column_drops_from_layer_to_floor() {
    let mut g = Grid3D::blank(5, 20, 5);
    for z in 0..5 {
        for x in 0..5 {
            g.set_cell(x, 0, z, Cell::Rock);
        }
    }

    let changes = wall_column_changes(&g, 2, 2, 15);

    assert_eq!(changes.len(), 15);
    assert!(changes.iter().all(|&(x, y, z, _)| x == 2 && z == 2 && (1..=15).contains(&y)));

    for &(x, y, z, _) in &changes {
        g.set_cell(x, y, z, Cell::Wall);
    }
    assert!(matches!(g.get_cell(2, 0, 2), Cell::Rock), "floor stays Rock");
    for y in 1..=15 {
        assert!(matches!(g.get_cell(2, y, 2), Cell::Wall), "y={y} should be Wall");
    }
    for y in 16..20 {
        assert!(matches!(g.get_cell(2, y, 2), Cell::Air), "above the layer stays Air");
    }
}

#[test]
fn wall_column_skips_existing_solid_cells() {
    let mut g = Grid3D::blank(3, 10, 3);
    g.set_cell(1, 0, 1, Cell::Rock);
    g.set_cell(1, 2, 1, Cell::Wall);
    let changes = wall_column_changes(&g, 1, 1, 4);
    let ys: Vec<usize> = changes.iter().map(|&(_, y, _, _)| y).collect();
    assert_eq!(ys, vec![1, 3, 4]);
}

#[test]
fn wall_column_clamps_layer_to_grid_ceiling() {
    let g = Grid3D::blank(3, 5, 3);
    let changes = wall_column_changes(&g, 1, 1, 99);
    assert_eq!(changes.len(), 5);
}

#[test]
fn wall_column_out_of_bounds_is_empty() {
    let g = Grid3D::blank(3, 5, 3);
    assert!(wall_column_changes(&g, 5, 1, 2).is_empty());
    assert!(wall_column_changes(&g, 1, 9, 2).is_empty());
}

#[test]
fn object_column_fills_only_air_cells() {
    let mut g = Grid3D::blank(3, 10, 3);
    g.set_cell(1, 0, 1, Cell::Rock);
    g.set_cell(1, 3, 1, Cell::Spring);
    let changes = column_changes(&g, 1, 1, 5, |c| matches!(c, Cell::Air));
    let ys: Vec<usize> = changes.iter().map(|&(_, y, _, _)| y).collect();
    assert_eq!(ys, vec![1, 2, 4, 5]);
}

#[test]
fn object_column_stacks_from_floor_to_layer() {
    let mut g = Grid3D::blank(4, 20, 4);
    for z in 0..4 {
        for x in 0..4 {
            g.set_cell(x, 0, z, Cell::Rock);
        }
    }
    let changes = column_changes(&g, 2, 2, 12, |c| matches!(c, Cell::Air));
    assert_eq!(changes.len(), 12);
    assert!(changes.iter().all(|&(_, y, _, _)| (1..=12).contains(&y)));
}

#[test]
fn wall_column_records_old_cells() {
    let mut g = Grid3D::blank(2, 4, 2);
    g.set_cell(0, 1, 1, Cell::Water(0x447a_0000));
    let changes = wall_column_changes(&g, 0, 1, 2);
    assert_eq!(changes.len(), 3);
    assert_eq!(changes[1], (0, 1, 1, Cell::Water(0x447a_0000)));
    assert_eq!(changes[0].3, Cell::Air);
}

#[test]
fn set_cell_leaves_other_voxels() {
    let mut g = Grid3D::blank(3, 3, 3);
    g.set_cell(1, 2, 0, Cell::Spring);
    assert_eq!(*g.get_cell(1, 2, 0), Cell::Spring);
    let springs = g.cells.iter().filter(|c| matches!(c, Cell::Spring)).count();
    assert_eq!(springs, 1);
    assert_eq!(g.cells[g.idx(1, 2, 0)], Cell::Spring);
    assert_eq!(g.idx(1, 2, 0), 19);
}

#[test]
fn in_bounds_rejects_negative_and_far_coordinates() {
    let g = Grid3D::blank(2, 3, 4);
    assert!(g.in_bounds(1, 2, 3));
    assert!(!g.in_bounds(-1, 0, 0));
    assert!(!g.in_bounds(0, 3, 0));
    assert!(!g.in_bounds(0, 0, 4));
    assert!(!g.in_bounds(2, 0, 0));
}
