use bluerush::grid::{GameState, InletMode};
use bluerush::levels::{apply_level, load_level, CellPlacement, LevelData};
use bluerush::simulation::Cell;
use bluerush::simulation3d::Grid3D;

fn place(x: usize, y: usize, z: Option<usize>, cell: Cell) -> CellPlacement {
    CellPlacement { x, y, z, cell }
}

#[test]
fn level_places_cells_and_defaults_depth() {
    let level = LevelData {
        name: "flat".to_string(),
        width: 4,
        height: 3,
        depth: None,
        default_inlet_mode: InletMode::Sine,
        cells: vec![
            place(0, 0, None, Cell::Rock),
            place(3, 2, None, Cell::Spring),
            place(9, 0, None, Cell::Wall),
            place(1, 1, Some(1), Cell::Wall),
            place(0, 0, Some(0), Cell::Sand),
        ],
    };
    let mut g = Grid3D::blank(1, 1, 1);
    let mut mode = InletMode::Flood;
    apply_level(&level, &mut g, &mut mode);
    assert_eq!((g.width, g.height, g.depth), (4, 3, 1));
    assert_eq!(mode, InletMode::Sine);
    assert_eq!(*g.get_cell(0, 0, 0), Cell::Sand);
    assert_eq!(*g.get_cell(3, 2, 0), Cell::Spring);
    let walls = g.cells.iter().filter(|c| **c == Cell::Wall).count();
    assert_eq!(walls, 0);
    let air = g.cells.iter().filter(|c| **c == Cell::Air).count();
    assert_eq!(air, 10);
}

#[test]
fn failed_level_falls_back_to_blank_grid() {
    let mut g = Grid3D::blank(1, 1, 1);
    g.set_cell(0, 0, 0, Cell::Wall);
    let mut s = GameState::new();
    s.water_flow = true;
    s.gate_progress = 3;
    let mut mode = InletMode::Random;
    load_level(None, &mut g, &mut s, &mut mode, 2, 3, 4);
    assert_eq!((g.width, g.height, g.depth), (2, 3, 4));
    assert!(g.cells.iter().all(|c| *c == Cell::Air));
    assert!(!s.water_flow);
    assert_eq!(s.gate_progress, 0);
    assert_eq!(mode, InletMode::Random);
}

#[test]
fn loaded_level_stops_water() {
    let level = LevelData {
        name: "valley".to_string(),
        width: 2,
        height: 2,
        depth: Some(2),
        default_inlet_mode: InletMode::Flood,
        cells: vec![place(1, 1, Some(1), Cell::Spring)],
    };
    let mut g = Grid3D::blank(1, 1, 1);
    let mut s = GameState::new();
    s.water_flow = true;
    let mut mode = InletMode::Random;
    load_level(Some(level), &mut g, &mut s, &mut mode, 9, 9, 9);
    assert_eq!((g.width, g.height, g.depth), (2, 2, 2));
    assert_eq!(*g.get_cell(1, 1, 1), Cell::Spring);
    assert!(!s.water_flow);
    assert_eq!(mode, InletMode::Flood);
}
