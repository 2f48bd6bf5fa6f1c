use life_engine::life::{GridError, Life};
use life_engine::step::{one_step, step_naive};

/// Builds a width x height seed with the given cells alive, row-major.
fn seed_with(width: usize, height: usize, alive: &[(usize, usize)]) -> Vec<bool> {
    let mut cells = vec![false; width * height];
    for &(col, row) in alive {
        cells[row * width + col] = true;
    }
    cells
}

/// Reads the whole grid of a simulation back out, row-major.
fn snapshot(life: &Life) -> Vec<bool> {
    let width = life.width();
    let height = life.height();
    let mut cells = Vec::new();
    for row in 0..height {
        for col in 0..width {
            cells.push(life.get(col, row).unwrap());
        }
    }
    cells
}

#[test]
fn incremental_advance_matches_naive_recomputation() {
    let width = 8;
    let height = 8;
    // a glider plus some scattered noise
    let seed = seed_with(
        width,
        height,
        &[(1, 0), (2, 1), (0, 2), (1, 2), (2, 2), (5, 5), (6, 5), (5, 6), (7, 7), (0, 7), (4, 0)],
    );
    let mut life = Life::new(width, height, seed.clone()).unwrap();
    let mut naive = seed;
    for _gen in 0..8 {
        life.advance();
        naive = step_naive(&naive, width, height);
        assert_eq!(snapshot(&life), naive);
    }
}

#[test]
fn block_still_life_settles() {
    let width = 6;
    let height = 6;
    let seed = seed_with(width, height, &[(2, 2), (3, 2), (2, 3), (3, 3)]);
    let mut life = Life::new(width, height, seed.clone()).unwrap();
    life.advance();
    // a block is stable from the start: nothing changes, so no cell is left
    // dirty after the first full evaluation
    assert_eq!(snapshot(&life), seed);
    assert_eq!(life.dirty_count(), 0);
    life.advance();
    assert_eq!(snapshot(&life), seed);
    assert_eq!(life.dirty_count(), 0);
}

#[test]
fn blinker_oscillates_with_period_two() {
    let width = 5;
    let height = 5;
    let horizontal = seed_with(width, height, &[(1, 2), (2, 2), (3, 2)]);
    let vertical = seed_with(width, height, &[(2, 1), (2, 2), (2, 3)]);
    let mut life = Life::new(width, height, horizontal.clone()).unwrap();
    for _round in 0..50 {
        life.advance();
        assert_eq!(snapshot(&life), vertical);
        life.advance();
        assert_eq!(snapshot(&life), horizontal);
    }
}

#[test]
fn glider_translates_one_cell_diagonally_every_four_generations() {
    let width = 10;
    let height = 10;
    let glider = [(1, 0), (2, 1), (0, 2), (1, 2), (2, 2)];
    let seed = seed_with(width, height, &glider);
    let mut life = Life::new(width, height, seed).unwrap();
    for _gen in 0..4 {
        life.advance();
    }
    let translated: Vec<(usize, usize)> =
        glider.iter().map(|&(col, row)| (col + 1, row + 1)).collect();
    let expected = seed_with(width, height, &translated);
    assert_eq!(snapshot(&life), expected);
}

#[test]
fn lone_corner_cell_dies_without_out_of_bounds_reads() {
    let width = 4;
    let height = 4;
    let seed = seed_with(width, height, &[(0, 0)]);
    let mut life = Life::new(width, height, seed).unwrap();
    life.advance();
    assert_eq!(snapshot(&life), vec![false; width * height]);
}

#[test]
fn still_life_dirty_count_is_non_increasing_and_reaches_zero() {
    let width = 6;
    let height = 6;
    let seed = seed_with(width, height, &[(2, 2), (3, 2), (2, 3), (3, 3)]);
    let mut life = Life::new(width, height, seed).unwrap();
    // on construction every cell is dirty
    let mut previous = life.dirty_count();
    assert_eq!(previous, width * height);
    for _gen in 0..5 {
        life.advance();
        let current = life.dirty_count();
        assert!(current <= previous);
        previous = current;
    }
    // a block settles after the very first evaluation
    assert_eq!(life.dirty_count(), 0);
}

#[test]
fn all_dead_grid_stays_dead_with_zero_dirty_cells() {
    let width = 4;
    let height = 5;
    let mut life = Life::new(width, height, vec![false; width * height]).unwrap();
    assert_eq!(life.dirty_count(), width * height);
    for _gen in 0..10 {
        life.advance();
        assert_eq!(snapshot(&life), vec![false; width * height]);
        assert_eq!(life.dirty_count(), 0);
    }
}

#[test]
fn one_step_with_full_mask_matches_naive() {
    let width = 6;
    let height = 4;
    let seed = seed_with(width, height, &[(1, 1), (2, 1), (3, 1), (4, 2), (0, 3)]);
    let mut grid = seed.clone();
    let mut buffer = vec![false; width * height];
    let mut mask = vec![true; width * height];
    one_step(&mut grid, &mut buffer, width, height, &mut mask);
    assert_eq!(grid, step_naive(&seed, width, height));
    assert_eq!(buffer, grid);
}

#[test]
fn new_rejects_zero_width() {
    assert!(matches!(Life::new(0, 3, vec![]), Err(GridError::ZeroDimension)));
}

#[test]
fn new_rejects_zero_height() {
    assert!(matches!(Life::new(3, 0, vec![false; 3]), Err(GridError::ZeroDimension)));
}

#[test]
fn new_rejects_wrong_seed_length() {
    assert!(matches!(Life::new(3, 3, vec![false; 8]), Err(GridError::DimensionMismatch)));
}

#[test]
fn get_rejects_out_of_bounds_instead_of_clamping() {
    let life = Life::new(3, 3, vec![true; 9]).unwrap();
    assert_eq!(life.get(3, 0).unwrap_err(), GridError::OutOfBounds);
    assert_eq!(life.get(0, 3).unwrap_err(), GridError::OutOfBounds);
    assert_eq!(life.get(usize::MAX, usize::MAX).unwrap_err(), GridError::OutOfBounds);
    assert_eq!(life.get(2, 2).unwrap(), true);
}

#[test]
fn create_populates_cells_from_seed_function() {
    let life = Life::create(4, 3, |col, row| col == row).unwrap();
    for row in 0..3 {
        for col in 0..4 {
            assert_eq!(life.get(col, row).unwrap(), col == row);
        }
    }
    assert_eq!(life.dirty_count(), 12);
}

#[test]
fn create_rejects_zero_dimension() {
    assert!(matches!(Life::create(0, 8, |_, _| true), Err(GridError::ZeroDimension)));
}

#[test]
fn create_rejects_unaddressable_size() {
    assert!(matches!(Life::create(usize::MAX, 2, |_, _| false), Err(GridError::TooLarge)));
}
