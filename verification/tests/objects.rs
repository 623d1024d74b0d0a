use bluerush::objects::{
    apply_winning_moves, apply_winning_moves_3d, choose_winners, count_objects, resolve_moves,
    resolve_moves_3d, MoveIntent,
};
use bluerush::simulation::{Cell, MAX_WATER_BITS};

fn kg(m: f32) -> u32 {
    m.to_bits()
}

fn intent(src: usize, dst: usize, weight: u32, fallback_dst: Option<usize>) -> MoveIntent {
    MoveIntent { src, dst, weight, fallback_dst }
}

#[test]
fn one_winner_per_destination() {
    let w = kg(200.0);
    let intents = vec![intent(0, 5, w, None), intent(1, 5, w, None), intent(2, 6, w, None), intent(3, 5, w, None)];
    let winners = choose_winners(&intents, &vec![1, 0, 7, 0]);
    // destination 5 first named by intent 0: contenders [0, 1, 3], draw 1 -> intent 1
    // destination 6 first named by intent 2: contenders [2], draw 7 -> intent 2
    assert_eq!(winners, vec![1, 2]);
    let winners = choose_winners(&intents, &vec![5, 0, 0, 0]);
    assert_eq!(winners, vec![3, 2]);
}

#[test]
fn blocked_upward_slips_sideways_resolution() {
    // 3 wide, 5 tall; ceiling at y=4, column of objects at x=1, y=1..3.
    let w = kg(200.0);
    let mut cells = vec![Cell::Air; 15];
    cells[12] = Cell::Wall;
    cells[13] = Cell::Wall;
    cells[14] = Cell::Wall;
    cells[10] = Cell::Object(w);
    cells[7] = Cell::Object(w);
    cells[4] = Cell::Object(w);
    cells[1] = Cell::Water(MAX_WATER_BITS);
    // every object wants to go up; an odd column falls back to the right
    let intents = vec![
        intent(10, 13, w, Some(11)),
        intent(7, 10, w, Some(8)),
        intent(4, 7, w, Some(5)),
    ];
    let result = apply_winning_moves(&cells, &intents, &vec![0, 1, 2]);
    assert_eq!(count_objects(&result), 3, "Object count must be preserved");
    assert!(matches!(result[11], Cell::Object(_)), "Top object should have slipped sideways to (2,3)");
    assert!(matches!(result[10], Cell::Object(_)), "Object from y=2 should now be at (1,3)");
    assert!(matches!(result[7], Cell::Object(_)), "Object from y=1 should now be at (1,2)");
    assert!(!matches!(result[4], Cell::Object(_)), "(1,1) should be vacated after chain shifts up");
}

#[test]
fn moving_object_swaps_with_water() {
    let w = kg(10.0);
    let cells = vec![Cell::Air, Cell::Object(w), Cell::Water(MAX_WATER_BITS)];
    let result = apply_winning_moves(&cells, &vec![intent(1, 2, w, None)], &vec![0]);
    assert_eq!(result, vec![Cell::Air, Cell::Water(MAX_WATER_BITS), Cell::Object(w)]);
}

#[test]
fn blocked_without_fallback_stays() {
    let w = kg(10.0);
    let cells = vec![Cell::Drain, Cell::Object(w), Cell::Spring];
    let intents = vec![intent(1, 0, w, Some(2))];
    let result = apply_winning_moves(&cells, &intents, &vec![0]);
    assert_eq!(result, cells);
}

#[test]
fn unmoved_object_blocks() {
    let w = kg(10.0);
    // object at 0 wants 1, object at 1 does not move (no winning intent)
    let cells = vec![Cell::Object(w), Cell::Object(w), Cell::Air];
    let intents = vec![intent(0, 1, w, None)];
    let result = apply_winning_moves(&cells, &intents, &vec![0]);
    assert_eq!(result, cells);
}

#[test]
fn resolve_conserves_objects_whatever_the_draws() {
    let w = kg(200.0);
    let mut cells = vec![Cell::Air; 9];
    cells[3] = Cell::Object(w);
    cells[5] = Cell::Object(w);
    // both objects want the centre slot 4
    let intents = vec![intent(3, 4, w, Some(6)), intent(5, 4, w, Some(8))];
    for _ in 0..20 {
        let result = resolve_moves(&cells, &intents);
        assert_eq!(result.len(), 9);
        assert_eq!(count_objects(&result), 2);
        assert!(matches!(result[4], Cell::Object(_)));
    }
}

#[test]
fn vertical_line_moves_keep_three_objects() {
    let w = kg(200.0);
    let mut cells = vec![Cell::Air; 15];
    cells[1] = Cell::Water(MAX_WATER_BITS);
    cells[4] = Cell::Object(w);
    cells[7] = Cell::Object(w);
    cells[10] = Cell::Object(w);
    let intents = vec![intent(10, 13, w, Some(11)), intent(7, 10, w, Some(8)), intent(4, 7, w, Some(5))];
    let result = resolve_moves(&cells, &intents);
    assert_eq!(count_objects(&result), 3, "Should still have exactly 3 objects");
}

#[test]
fn flat_grid_objects_enter_rock_and_buildings() {
    // on the flat grid only walls, springs and drains block
    let w = kg(10.0);
    let cells = vec![Cell::Object(w), Cell::Rock];
    let result = apply_winning_moves(&cells, &vec![intent(0, 1, w, None)], &vec![0]);
    assert_eq!(result, vec![Cell::Rock, Cell::Object(w)]);
}

#[test]
fn voxel_rock_and_buildings_block() {
    let w = kg(10.0);
    let b = Cell::Building { weight: kg(3000.0), threshold: kg(5000.0) };
    let cells = vec![Cell::Rock, Cell::Object(w), b, Cell::Object(w), Cell::Air];
    let intents = vec![intent(1, 0, w, None), intent(3, 2, w, None)];
    let result = apply_winning_moves_3d(&cells, &intents, &vec![0, 1], false, &vec![]);
    assert_eq!(result, cells);
}

#[test]
fn voxel_move_into_water_swaps() {
    let w = kg(10.0);
    let cells = vec![Cell::Water(MAX_WATER_BITS), Cell::Object(w), Cell::Air];
    let result = apply_winning_moves_3d(&cells, &vec![intent(1, 0, w, None)], &vec![0], false, &vec![]);
    assert_eq!(result, vec![Cell::Object(w), Cell::Water(MAX_WATER_BITS), Cell::Air]);
}

#[test]
fn voxel_crash_without_destruction_is_a_no_op() {
    let (light, heavy) = (kg(200.0), kg(1000.0));
    let cells = vec![Cell::Object(light), Cell::Object(heavy)];
    let result = apply_winning_moves_3d(&cells, &vec![intent(0, 1, light, None)], &vec![0], false, &vec![]);
    assert_eq!(result, cells);
}

#[test]
fn voxel_crash_dents_the_object_hit() {
    let (light, heavy) = (kg(200.0), kg(1000.0));
    let cells = vec![Cell::Object(light), Cell::Object(heavy)];
    let outcomes = vec![Some(kg(800.0))];
    let result = apply_winning_moves_3d(&cells, &vec![intent(0, 1, light, None)], &vec![0], true, &outcomes);
    assert_eq!(result, vec![Cell::Air, Cell::Object(kg(800.0))]);
}

#[test]
fn voxel_crash_destroys_the_object_hit() {
    let (light, heavy) = (kg(200.0), kg(1000.0));
    let cells = vec![Cell::Object(heavy), Cell::Object(light)];
    let result = apply_winning_moves_3d(&cells, &vec![intent(0, 1, heavy, None)], &vec![0], true, &vec![None]);
    assert_eq!(result, vec![Cell::Air, Cell::Air]);
    assert_eq!(count_objects(&result), 0);
}

#[test]
fn voxel_crash_into_a_moved_away_cell_is_a_move() {
    // slot 2 moves away first (highest source first), so slot 1 can follow
    let w = kg(10.0);
    let cells = vec![Cell::Air, Cell::Object(w), Cell::Object(w), Cell::Air];
    let intents = vec![intent(1, 2, w, None), intent(2, 3, w, None)];
    let result = apply_winning_moves_3d(&cells, &intents, &vec![0, 1], true, &vec![None, None]);
    assert_eq!(result, vec![Cell::Air, Cell::Air, Cell::Object(w), Cell::Object(w)]);
}

#[test]
fn voxel_tick_keeps_fixtures_whatever_the_draws() {
    let w = kg(200.0);
    let cells = vec![Cell::Wall, Cell::Object(w), Cell::Air, Cell::Object(w), Cell::Spring];
    let intents = vec![intent(1, 2, w, None), intent(3, 2, w, None)];
    for _ in 0..20 {
        let result = resolve_moves_3d(&cells, &intents, false, &vec![]);
        assert_eq!(result[0], Cell::Wall);
        assert_eq!(result[4], Cell::Spring);
        assert_eq!(count_objects(&result), 2);
        assert!(matches!(result[2], Cell::Object(_)));
    }
}

#[test]
fn tick_without_objects_changes_nothing() {
    let cells = vec![Cell::Water(MAX_WATER_BITS), Cell::Air, Cell::Wall, Cell::Sand];
    assert_eq!(resolve_moves(&cells, &vec![]), cells);
    assert_eq!(resolve_moves_3d(&cells, &vec![], true, &vec![]), cells);
}

#[test]
fn voxel_objects_rise_or_slide_never_sink() {
    // a 1 x 3 x 2 column pair: slots are y * 2 + z
    let w = kg(100.0);
    let mut cells = vec![Cell::Water(MAX_WATER_BITS); 6];
    cells[0] = Cell::Object(w); // (y 0, z 0) rises to (y 1, z 0) = slot 2
    cells[3] = Cell::Object(w); // (y 1, z 1) slides to (y 1, z 0) = slot 2 too
    let intents = vec![intent(0, 2, w, None), intent(3, 2, w, None)];
    for winner in 0..2 {
        let result = apply_winning_moves_3d(&cells, &intents, &vec![winner], false, &vec![]);
        assert!(matches!(result[2], Cell::Object(_)));
        assert_eq!(count_objects(&result), 2);
        // nothing below slot 2's layer gained an object it did not have
        assert!(!matches!(result[1], Cell::Object(_)));
    }
}

// The intents below are those the force pass produces for the layouts of
// the physics scenarios; the library resolves them.

#[test]
fn object_pushed_by_water_resolution() {
    // 3 x 3: water at (1,0) lifts the light object at (1,1) to (1,2)
    let w = kg(10.0);
    let mut cells = vec![Cell::Air; 9];
    cells[1] = Cell::Water(MAX_WATER_BITS);
    cells[4] = Cell::Object(w);
    let result = resolve_moves(&cells, &vec![intent(4, 7, w, Some(5))]);
    assert!(matches!(result[7], Cell::Object(_)), "Object should have moved to (1,2)");
    assert!(matches!(result[4], Cell::Air), "Vacated cell (1,1) should be air");
}

#[test]
fn heavy_object_stays_put_resolution() {
    // 3 x 5: the heavy object at (1,2) gets no intent
    let mut cells = vec![Cell::Air; 15];
    cells[1] = Cell::Water(MAX_WATER_BITS);
    cells[4] = Cell::Water(MAX_WATER_BITS);
    cells[7] = Cell::Object(kg(4000.0));
    let result = resolve_moves(&cells, &vec![]);
    assert!(matches!(result[7], Cell::Object(_)), "Heavy object should stay at (2,1)");
    assert!(matches!(result[10], Cell::Air), "Cell above should remain air");
}

#[test]
fn sandwiched_objects_float_resolution() {
    // 3 x 5: objects at (1,1) and (1,2) between water at (1,0) and (1,3) both rise
    let w = kg(200.0);
    let mut cells = vec![Cell::Air; 15];
    cells[1] = Cell::Water(MAX_WATER_BITS);
    cells[4] = Cell::Object(w);
    cells[7] = Cell::Object(w);
    cells[10] = Cell::Water(MAX_WATER_BITS);
    let intents = vec![intent(7, 10, w, Some(8)), intent(4, 7, w, Some(5))];
    let result = resolve_moves(&cells, &intents);
    assert!(matches!(result[7], Cell::Object(_)), "Bottom object should be at y=2");
    assert!(matches!(result[10], Cell::Object(_)), "Top object should be at y=3");
    assert!(!matches!(result[4], Cell::Object(_)), "y=1 should no longer have an object");
}

#[test]
fn hold_the_line_resolution() {
    // 3 x 5: two rows of water lift a row of three objects at y=2 to y=3
    let w = kg(200.0);
    let mut cells = vec![Cell::Air; 15];
    for i in 0..6 {
        cells[i] = Cell::Water(MAX_WATER_BITS);
    }
    cells[6] = Cell::Object(w);
    cells[7] = Cell::Object(w);
    cells[8] = Cell::Object(w);
    let intents = vec![intent(6, 9, w, None), intent(7, 10, w, Some(8)), intent(8, 11, w, Some(7))];
    let result = resolve_moves(&cells, &intents);
    assert_eq!(count_objects(&result), 3, "Should still have exactly 3 objects");
    for x in 0..3 {
        assert!(!matches!(result[6 + x], Cell::Object(_)), "not object at ({x},2)");
        assert!(matches!(result[9 + x], Cell::Object(_)), "object at ({x},3)");
    }
}

#[test]
fn light_object_rises_in_water_resolution() {
    // a 1 x 4 x 1 column: the light object at y=2 rises to y=3
    let w = kg(10.0);
    let cells = vec![Cell::Water(MAX_WATER_BITS), Cell::Water(MAX_WATER_BITS), Cell::Object(w), Cell::Air];
    let result = resolve_moves_3d(&cells, &vec![intent(2, 3, w, None)], false, &vec![]);
    assert!(matches!(result[3], Cell::Object(_)), "Light object should rise to y=3");
}

#[test]
fn heavy_object_stays_3d_resolution() {
    // the heavy object at y=2 gets no intent
    let cells = vec![
        Cell::Water(MAX_WATER_BITS),
        Cell::Water(MAX_WATER_BITS),
        Cell::Object(kg(5000.0)),
        Cell::Air,
    ];
    let result = resolve_moves_3d(&cells, &vec![], false, &vec![]);
    assert!(matches!(result[2], Cell::Object(_)), "Heavy object should not move");
}
