use bluerush::flow::build_flow_distance;
use bluerush::simulation::{Cell, Grid, MAX_WATER_BITS};

fn grid(width: usize, height: usize, cells: Vec<Cell>) -> Grid {
    Grid { width, height, cells }
}

#[test]
fn flow_distance_counts_steps_from_inlet() {
    // 3 wide, 3 tall, water source at (1,0)
    let mut cells = vec![Cell::Air; 9];
    cells[1] = Cell::Water(MAX_WATER_BITS);
    let d = build_flow_distance(&grid(3, 3, cells));
    assert_eq!(d, vec![1, 0, 1, 2, 1, 2, 3, 2, 3]);
}

#[test]
fn flow_distance_goes_around_walls() {
    // y=0: S . .
    // y=1: W W .
    // y=2: . . .
    let mut cells = vec![Cell::Air; 9];
    cells[0] = Cell::Spring;
    cells[3] = Cell::Wall;
    cells[4] = Cell::Wall;
    let d = build_flow_distance(&grid(3, 3, cells));
    assert_eq!(d[0], 0);
    assert_eq!(d[1], 1);
    assert_eq!(d[2], 2);
    assert_eq!(d[3], u32::MAX);
    assert_eq!(d[4], u32::MAX);
    assert_eq!(d[5], 3);
    assert_eq!(d[8], 4);
    assert_eq!(d[7], 5);
    assert_eq!(d[6], 6);
}

#[test]
fn flow_distance_without_sources_is_unreachable() {
    let cells = vec![Cell::Air; 6];
    let d = build_flow_distance(&grid(3, 2, cells));
    assert!(d.iter().all(|&v| v == u32::MAX));
}

#[test]
fn flow_distance_ignores_sources_above_inlet_row() {
    let mut cells = vec![Cell::Air; 6];
    cells[4] = Cell::Water(MAX_WATER_BITS);
    let d = build_flow_distance(&grid(3, 2, cells));
    assert!(d.iter().all(|&v| v == u32::MAX));
}

#[test]
fn flow_distance_enclosed_cell_is_unreachable() {
    // a cell walled in on all sides
    let mut cells = vec![Cell::Air; 25];
    for x in 0..5 {
        cells[x] = Cell::Water(MAX_WATER_BITS);
    }
    cells[2 * 5 + 1] = Cell::Wall;
    cells[2 * 5 + 3] = Cell::Wall;
    cells[1 * 5 + 2] = Cell::Wall;
    cells[3 * 5 + 2] = Cell::Wall;
    let d = build_flow_distance(&grid(5, 5, cells));
    assert_eq!(d[2 * 5 + 2], u32::MAX);
    assert_eq!(d[4 * 5 + 2], 6);
}

#[test]
fn init_lays_out_walls_gate_and_reservoir() {
    let g = Grid::init(4, 4);
    assert_eq!(g.cells.len(), 16);
    assert_eq!(*g.get_cell(0, 0), Cell::Wall);
    assert_eq!(*g.get_cell(3, 2), Cell::Wall);
    assert_eq!(*g.get_cell(1, 0), Cell::Water(MAX_WATER_BITS));
    assert_eq!(*g.get_cell(2, 0), Cell::Water(MAX_WATER_BITS));
    assert_eq!(*g.get_cell(1, 1), Cell::Wall);
    assert_eq!(*g.get_cell(2, 2), Cell::Air);
    assert_eq!(*g.get_cell(1, 3), Cell::Wall);
    assert_eq!(MAX_WATER_BITS, 1000.0f32.to_bits());
}

#[test]
fn init_single_row_keeps_reservoir() {
    let g = Grid::init(3, 1);
    assert_eq!(g.cells, vec![Cell::Wall, Cell::Water(MAX_WATER_BITS), Cell::Wall]);
}
