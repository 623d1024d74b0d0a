use bluerush::persistence::{check_saved_grid, LoadMismatch};

#[test]
fn saved_grid_of_the_same_size_loads() {
    assert_eq!(check_saved_grid(4, 3, 4, 3), Ok(()));
}

#[test]
fn saved_grid_of_another_size_is_refused() {
    assert_eq!(check_saved_grid(5, 3, 4, 3), Err(LoadMismatch::GridSize));
    assert_eq!(check_saved_grid(4, 2, 4, 3), Err(LoadMismatch::GridSize));
}

#[test]
fn saved_grid_size_check_ignores_the_cell_count() {
    // the cells of a matching file are taken as they are
    assert_eq!(check_saved_grid(0, 3, 0, 3), Ok(()));
}
