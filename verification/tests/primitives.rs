use life_engine::grid::{coord_to_index, fill_grid, get_grid, index_to_coord, in_map, set_grid};
use life_engine::rules::{count_neighbors, dead_or_alive};

#[test]
fn coordinates_round_trip_through_the_flat_index() {
    assert_eq!(coord_to_index(5, 3, 2), 13);
    assert_eq!(index_to_coord(5, 13), (3, 2));
    assert_eq!(coord_to_index(7, 0, 0), 0);
    assert_eq!(index_to_coord(7, 6), (6, 0));
    assert_eq!(index_to_coord(7, 7), (0, 1));
}

#[test]
fn get_and_set_address_the_same_cell() {
    let mut grid = vec![false; 12];
    set_grid(&mut grid, 4, 2, 1, true);
    assert_eq!(grid[6], true);
    assert_eq!(get_grid(&grid, 4, 2, 1), true);
    assert_eq!(get_grid(&grid, 4, 1, 2), false);
}

#[test]
fn in_map_excludes_coordinates_beyond_the_edges() {
    assert!(in_map(3, 2, 0, 0));
    assert!(in_map(3, 2, 2, 1));
    assert!(!in_map(3, 2, -1, 0));
    assert!(!in_map(3, 2, 0, -1));
    assert!(!in_map(3, 2, 3, 0));
    assert!(!in_map(3, 2, 0, 2));
}

#[test]
fn dead_or_alive_follows_the_standard_rule() {
    // a live cell survives with exactly two or three live neighbors
    assert_eq!(dead_or_alive(true, 0), false);
    assert_eq!(dead_or_alive(true, 1), false);
    assert_eq!(dead_or_alive(true, 2), true);
    assert_eq!(dead_or_alive(true, 3), true);
    assert_eq!(dead_or_alive(true, 4), false);
    assert_eq!(dead_or_alive(true, 8), false);
    // a dead cell is born with exactly three live neighbors
    assert_eq!(dead_or_alive(false, 2), false);
    assert_eq!(dead_or_alive(false, 3), true);
    assert_eq!(dead_or_alive(false, 4), false);
}

#[test]
fn corner_cell_counts_only_its_three_in_bounds_neighbors() {
    // every cell alive: the corner still sees only three neighbors
    let grid = vec![true; 9];
    assert_eq!(count_neighbors(3, 3, &grid, 0, 0), 3);
    assert_eq!(count_neighbors(3, 3, &grid, 2, 2), 3);
    // an edge cell sees five, the center all eight
    assert_eq!(count_neighbors(3, 3, &grid, 1, 0), 5);
    assert_eq!(count_neighbors(3, 3, &grid, 1, 1), 8);
}

#[test]
fn count_neighbors_skips_the_cell_itself() {
    let mut grid = vec![false; 9];
    grid[4] = true;
    assert_eq!(count_neighbors(3, 3, &grid, 1, 1), 0);
    assert_eq!(count_neighbors(3, 3, &grid, 0, 0), 1);
}

#[test]
fn fill_grid_lays_cells_out_row_major() {
    let grid = fill_grid(2, 3, |col, row| 10 * row + col);
    assert_eq!(grid, vec![0, 1, 2, 10, 11, 12]);
}
