use bluerush::render::{cursor_cell, face_shows, hover_columns, transparent, visible_faces, VoxelKind};
use bluerush::simulation::Cell;
use bluerush::simulation3d::Grid3D;

#[test]
fn lone_voxel_shows_all_faces() {
    let mut g = Grid3D::blank(3, 3, 3);
    g.set_cell(1, 1, 1, Cell::Wall);
    let faces = visible_faces(&g, VoxelKind::Wall);
    assert_eq!(faces, (0..6u8).map(|f| (1, 1, 1, f)).collect::<Vec<_>>());
}

#[test]
fn adjacent_solid_voxels_hide_shared_faces() {
    let mut g = Grid3D::blank(2, 1, 1);
    g.set_cell(0, 0, 0, Cell::Rock);
    g.set_cell(1, 0, 0, Cell::Rock);
    let faces = visible_faces(&g, VoxelKind::Rock);
    // each voxel hides the face toward the other: 5 faces each
    assert_eq!(faces.len(), 10);
    assert!(!faces.contains(&(0, 0, 0, 2)));
    assert!(!faces.contains(&(1, 0, 0, 3)));
}

#[test]
fn transparent_neighbours_expose_faces() {
    let mut g = Grid3D::blank(1, 2, 1);
    g.set_cell(0, 0, 0, Cell::Water(5));
    g.set_cell(0, 1, 0, Cell::Sand);
    assert!(face_shows(&g, 0, 0, 0, 0));
    g.set_cell(0, 1, 0, Cell::Object(5));
    assert!(!face_shows(&g, 0, 0, 0, 0));
    assert!(transparent(&Cell::Drain));
    assert!(!transparent(&Cell::Building { weight: 1, threshold: 1 }));
    assert_eq!(visible_faces(&g, VoxelKind::Spring), vec![]);
}

#[test]
fn cursor_cell_requires_column_on_grid() {
    let g = Grid3D::blank(4, 2, 3);
    assert_eq!(cursor_cell(&g, 3, 2, 1), Some((3, 1, 2)));
    assert_eq!(cursor_cell(&g, 4, 0, 1), None);
    assert_eq!(cursor_cell(&g, 0, -1, 1), None);
    assert_eq!(cursor_cell(&g, -2, 1, 0), None);
}

#[test]
fn hover_outline_covers_the_brush_square() {
    let g = Grid3D::blank(5, 1, 5);
    assert_eq!(
        hover_columns(&g, 2, 2, 1),
        vec![(1, 1), (2, 1), (3, 1), (1, 2), (2, 2), (3, 2), (1, 3), (2, 3), (3, 3)]
    );
    assert_eq!(hover_columns(&g, 4, 0, 0), vec![(4, 0)]);
}

#[test]
fn hover_outline_leaves_out_columns_past_the_edge() {
    let g = Grid3D::blank(3, 1, 2);
    assert_eq!(hover_columns(&g, 0, 0, 1), vec![(0, 0), (1, 0), (0, 1), (1, 1)]);
    assert_eq!(hover_columns(&g, 5, 5, 1), Vec::<(usize, usize)>::new());
}
