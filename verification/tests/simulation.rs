use bluerush::simulation::{keep_permanent_cells, Cell, MAX_WATER_BITS};

#[test]
fn water_tick_keeps_permanent_cells() {
    let building = Cell::Building { weight: 1, threshold: 2 };
    let before = vec![
        Cell::Spring,
        Cell::Drain,
        Cell::Rock,
        Cell::Sand,
        Cell::Wall,
        building,
        Cell::Air,
        Cell::Water(7),
    ];
    let mut after = vec![
        Cell::Water(MAX_WATER_BITS),
        Cell::Water(3),
        Cell::Air,
        Cell::Water(5),
        Cell::Air,
        Cell::Air,
        Cell::Water(9),
        Cell::Air,
    ];
    keep_permanent_cells(&before, &mut after);
    assert_eq!(
        after,
        vec![
            Cell::Spring,
            Cell::Drain,
            Cell::Rock,
            Cell::Sand,
            Cell::Wall,
            building,
            Cell::Water(9),
            Cell::Air,
        ]
    );
}
