use bluerush::grid::{constrain_to_line, paint_brush, placement, GameState, InletMode, SelectedTool, ViewMode};
use bluerush::simulation::Cell;
use bluerush::simulation3d::Grid3D;
use bluerush::undo::UndoStack;

fn kg(m: f32) -> u32 {
    m.to_bits()
}

#[test]
fn placement_rules() {
    let block = SelectedTool::Block(kg(500.0));
    assert_eq!(placement(&block, &Cell::Air), Some(Cell::Object(kg(500.0))));
    assert_eq!(placement(&block, &Cell::Object(kg(200.0))), None);
    assert_eq!(placement(&block, &Cell::Rock), None);
    assert_eq!(placement(&SelectedTool::Eraser, &Cell::Spring), Some(Cell::Air));
    assert_eq!(placement(&SelectedTool::Eraser, &Cell::Wall), None);
    assert_eq!(placement(&SelectedTool::Spring, &Cell::Spring), None);
    assert_eq!(placement(&SelectedTool::Drain, &Cell::Water(1)), Some(Cell::Drain));
    let building = SelectedTool::Building { weight: kg(3000.0), threshold: kg(2500.0) };
    assert_eq!(
        placement(&building, &Cell::Sand),
        None
    );
    assert_eq!(
        placement(&building, &Cell::Air),
        Some(Cell::Building { weight: kg(3000.0), threshold: kg(2500.0) })
    );
}

#[test]
fn brush_paints_square_and_records_undo() {
    let mut g = Grid3D::blank(5, 3, 5);
    let mut u = UndoStack::new();
    let placed = paint_brush(&mut g, &mut u, SelectedTool::Spring, 2, 2, 1, 1);
    assert!(placed);
    let springs = g.cells.iter().filter(|c| **c == Cell::Spring).count();
    assert_eq!(springs, 9);
    for z in 1..=3 {
        for x in 1..=3 {
            assert_eq!(*g.get_cell(x, 1, z), Cell::Spring);
        }
    }
    u.commit();
    u.undo(&mut g);
    assert!(g.cells.iter().all(|c| *c == Cell::Air));
}

#[test]
fn brush_clamps_at_edge_and_records_once() {
    let mut g = Grid3D::blank(3, 2, 3);
    let mut u = UndoStack::new();
    // radius 1 at the corner: offsets below zero clamp onto row/column 0
    paint_brush(&mut g, &mut u, SelectedTool::Block(kg(200.0)), 0, 0, 0, 1);
    let objects = g.cells.iter().filter(|c| matches!(c, Cell::Object(_))).count();
    assert_eq!(objects, 4);
    // a second dab with the same tool changes nothing
    let before = g.cells.clone();
    paint_brush(&mut g, &mut u, SelectedTool::Block(kg(200.0)), 0, 0, 0, 1);
    assert_eq!(g.cells, before);
    u.commit();
    u.undo(&mut g);
    assert!(g.cells.iter().all(|c| *c == Cell::Air));
}

#[test]
fn brush_skips_terrain_and_outside_layers() {
    let mut g = Grid3D::blank(3, 2, 3);
    g.set_cell(1, 0, 1, Cell::Rock);
    let mut u = UndoStack::new();
    let placed = paint_brush(&mut g, &mut u, SelectedTool::Eraser, 1, 1, 0, 0);
    assert!(!placed);
    assert!(!u.has_pending());
    let placed = paint_brush(&mut g, &mut u, SelectedTool::Drain, 1, 1, 5, 1);
    assert!(!placed);
    // eraser over air places air without recording anything
    let placed = paint_brush(&mut g, &mut u, SelectedTool::Eraser, 0, 0, 1, 0);
    assert!(placed);
    assert!(!u.has_pending());
}

#[test]
fn shift_drag_snaps_to_dominant_axis() {
    assert_eq!(constrain_to_line(5, 3, None), (5, 3));
    assert_eq!(constrain_to_line(9, 4, Some((2, 2))), (9, 2));
    assert_eq!(constrain_to_line(3, 9, Some((2, 2))), (2, 9));
    assert_eq!(constrain_to_line(4, 0, Some((2, 2))), (4, 2));
}

#[test]
fn inlet_and_view_modes_cycle() {
    assert_eq!(InletMode::Flood.next(), InletMode::Sine);
    assert_eq!(InletMode::Sine.next(), InletMode::Random);
    assert_eq!(InletMode::Random.next(), InletMode::Flood);
    assert_eq!(InletMode::default(), InletMode::Flood);
    assert_eq!(ViewMode::Pressure.pressure_toggled(), ViewMode::Normal);
    assert_eq!(ViewMode::Normal.pressure_toggled(), ViewMode::Pressure);
    assert_eq!(ViewMode::FlowArrows.pressure_toggled(), ViewMode::Pressure);
    assert_eq!(ViewMode::default(), ViewMode::Normal);
}

#[test]
fn speed_and_brush_limits() {
    let mut s = GameState::new();
    assert_eq!(s.sim_speed, 1);
    s.speed_down();
    assert_eq!(s.sim_speed, 1);
    for _ in 0..20 {
        s.speed_up();
    }
    assert_eq!(s.sim_speed, 16);
    s.speed_down();
    assert_eq!(s.sim_speed, 15);
    s.brush_down();
    assert_eq!(s.brush_radius, 0);
    for _ in 0..9 {
        s.brush_up();
    }
    assert_eq!(s.brush_radius, 5);
    assert_eq!(s.brush_diameter(), 11);
    s.water_flow = true;
    s.gate_progress = 7;
    s.reset_flow();
    assert!(!s.water_flow);
    assert_eq!(s.gate_progress, 0);
    assert_eq!(s.sim_speed, 15);
}

#[test]
fn eraser_brush_spares_walls_and_terrain() {
    let mut g = Grid3D::blank(3, 1, 3);
    g.set_cell(0, 0, 0, Cell::Wall);
    g.set_cell(1, 0, 0, Cell::Rock);
    g.set_cell(2, 0, 0, Cell::Sand);
    g.set_cell(1, 0, 1, Cell::Object(kg(200.0)));
    let mut u = UndoStack::new();
    assert!(paint_brush(&mut g, &mut u, SelectedTool::Eraser, 1, 1, 0, 1));
    assert_eq!(*g.get_cell(0, 0, 0), Cell::Wall);
    assert_eq!(*g.get_cell(1, 0, 0), Cell::Rock);
    assert_eq!(*g.get_cell(2, 0, 0), Cell::Sand);
    assert_eq!(*g.get_cell(1, 0, 1), Cell::Air);
}

#[test]
fn brush_dab_stays_in_its_clamped_square() {
    let mut g = Grid3D::blank(6, 2, 6);
    let mut u = UndoStack::new();
    // radius 1 at column (0, 0): the square clamps to columns 0..=1
    assert!(paint_brush(&mut g, &mut u, SelectedTool::Drain, 0, 0, 1, 1));
    for y in 0..2 {
        for z in 0..6 {
            for x in 0..6 {
                let inside = y == 1 && x <= 1 && z <= 1;
                let expected = if inside { Cell::Drain } else { Cell::Air };
                assert_eq!(*g.get_cell(x, y, z), expected, "voxel ({x}, {y}, {z})");
            }
        }
    }
}

#[test]
fn block_brush_never_replaces_an_object() {
    let mut g = Grid3D::blank(3, 1, 3);
    g.set_cell(1, 0, 1, Cell::Object(kg(5000.0)));
    let mut u = UndoStack::new();
    assert!(paint_brush(&mut g, &mut u, SelectedTool::Block(kg(200.0)), 1, 1, 0, 1));
    assert_eq!(*g.get_cell(1, 0, 1), Cell::Object(kg(5000.0)));
    assert_eq!(*g.get_cell(0, 0, 0), Cell::Object(kg(200.0)));
}
