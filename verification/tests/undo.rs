use bluerush::simulation::Cell;
use bluerush::simulation3d::Grid3D;
use bluerush::undo::UndoStack;

#[test]
fn record_ignores_unchanged_cells() {
    let mut u = UndoStack::new();
    assert!(!u.has_pending());
    u.record(0, 0, 0, Cell::Air, Cell::Air);
    assert!(!u.has_pending());
    u.record(0, 0, 0, Cell::Air, Cell::Wall);
    assert!(u.has_pending());
}

#[test]
fn commit_without_pending_changes_nothing() {
    let mut u = UndoStack::new();
    u.commit();
    assert_eq!(u.undo_len(), 0);
}

#[test]
fn undo_then_redo_round_trips() {
    let mut g = Grid3D::blank(3, 3, 3);
    let mut u = UndoStack::default();
    u.record(1, 1, 1, Cell::Air, Cell::Object(0x4348_0000));
    g.set_cell(1, 1, 1, Cell::Object(0x4348_0000));
    u.record(2, 0, 1, Cell::Air, Cell::Spring);
    g.set_cell(2, 0, 1, Cell::Spring);
    u.commit();
    assert!(!u.has_pending());
    assert_eq!(u.undo_len(), 1);
    let edited = g.cells.clone();

    u.undo(&mut g);
    assert!(g.cells.iter().all(|c| *c == Cell::Air));
    assert_eq!(u.undo_len(), 0);
    assert_eq!(u.redo_len(), 1);

    u.redo(&mut g);
    assert_eq!(g.cells, edited);
    assert_eq!(u.undo_len(), 1);
    assert_eq!(u.redo_len(), 0);
}

#[test]
fn undo_on_empty_history_does_nothing() {
    let mut g = Grid3D::blank(2, 2, 2);
    g.set_cell(0, 0, 0, Cell::Wall);
    let before = g.cells.clone();
    let mut u = UndoStack::new();
    u.undo(&mut g);
    u.redo(&mut g);
    assert_eq!(g.cells, before);
}

#[test]
fn commit_discards_redo_history() {
    let mut g = Grid3D::blank(2, 2, 2);
    let mut u = UndoStack::new();
    u.record(0, 0, 0, Cell::Air, Cell::Drain);
    g.set_cell(0, 0, 0, Cell::Drain);
    u.commit();
    u.undo(&mut g);
    assert_eq!(u.redo_len(), 1);
    u.record(1, 1, 1, Cell::Air, Cell::Drain);
    u.commit();
    assert_eq!(u.redo_len(), 0);
    assert_eq!(u.undo_len(), 1);
}

#[test]
fn history_is_capped_at_one_hundred_actions() {
    let mut u = UndoStack::new();
    for i in 0..105usize {
        u.record(i, 0, 0, Cell::Air, Cell::Wall);
        u.commit();
    }
    assert_eq!(u.undo_len(), 100);
}

#[test]
fn clear_forgets_everything() {
    let mut u = UndoStack::new();
    u.record(0, 0, 0, Cell::Air, Cell::Wall);
    u.commit();
    u.record(0, 0, 0, Cell::Wall, Cell::Air);
    u.clear();
    assert_eq!(u.undo_len(), 0);
    assert_eq!(u.redo_len(), 0);
    assert!(!u.has_pending());
}

#[test]
fn undo_fits_checks_last_action_bounds() {
    let small = Grid3D::blank(2, 2, 2);
    let large = Grid3D::blank(5, 5, 5);
    let mut u = UndoStack::new();
    assert!(u.undo_fits(&small));
    assert!(u.redo_fits(&small));
    u.record(4, 1, 1, Cell::Air, Cell::Wall);
    u.commit();
    assert!(!u.undo_fits(&small));
    assert!(u.undo_fits(&large));
}

#[test]
fn record_compares_masses_as_numbers() {
    let mut u = UndoStack::new();
    // +0 kg and -0 kg are the same mass: nothing to record
    u.record(0, 0, 0, Cell::Water(0.0f32.to_bits()), Cell::Water((-0.0f32).to_bits()));
    assert!(!u.has_pending());
    // a NaN mass equals nothing, not even itself
    u.record(0, 0, 0, Cell::Object(f32::NAN.to_bits()), Cell::Object(f32::NAN.to_bits()));
    assert!(u.has_pending());
}

#[test]
fn undo_writes_through_the_slot_a_change_names() {
    // (2, 0, 0) lies outside a 2 x 2 x 1 grid but names slot 2, voxel (0, 1, 0)
    let mut g = Grid3D::blank(2, 2, 1);
    let mut u = UndoStack::new();
    u.record(2, 0, 0, Cell::Wall, Cell::Air);
    u.commit();
    assert!(u.undo_fits(&g));
    u.undo(&mut g);
    assert_eq!(*g.get_cell(0, 1, 0), Cell::Wall);
    // a change past the end of the cell vector does not fit
    u.clear();
    u.record(0, 5, 0, Cell::Wall, Cell::Air);
    u.commit();
    assert!(!u.undo_fits(&g));
}

#[test]
fn undo_restores_a_voxel_recorded_twice_to_its_first_value() {
    // a stroke erases an object, the water fills the cell, the stroke erases again
    let mut g = Grid3D::blank(1, 1, 1);
    g.set_cell(0, 0, 0, Cell::Object(200.0f32.to_bits()));
    let mut s = UndoStack::default();
    s.record(0, 0, 0, Cell::Object(200.0f32.to_bits()), Cell::Air);
    s.record(0, 0, 0, Cell::Water(500.0f32.to_bits()), Cell::Air);
    g.set_cell(0, 0, 0, Cell::Air);
    s.commit();
    s.undo(&mut g);
    assert_eq!(*g.get_cell(0, 0, 0), Cell::Object(200.0f32.to_bits()));
    s.redo(&mut g);
    assert_eq!(*g.get_cell(0, 0, 0), Cell::Air);
}
