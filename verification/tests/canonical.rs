use brick_packer::canon::{grid_hash, least_hash, permute_grid, test_hash_function};
use brick_packer::grid::{calculate_hash, copy_grid, flip_grid, get_permuted_indices, rotate_grid, Grid};
use fxhash::FxHashSet;

fn empty_grid() -> Grid {
    [[[false; 5]; 5]; 5]
}

fn grid_of(cells: &[(usize, usize, usize)]) -> Grid {
    let mut grid = empty_grid();
    for &(x, y, z) in cells {
        grid[x][y][z] = true;
    }
    grid
}

fn sample_grid() -> Grid {
    grid_of(&[(0, 0, 0), (1, 0, 0), (1, 2, 0), (1, 2, 3), (4, 2, 3), (4, 4, 1), (2, 2, 2), (3, 0, 4)])
}

#[test]
fn encoding_of_empty_grid_is_zero() {
    assert_eq!(calculate_hash(&empty_grid()), 0);
}

#[test]
fn encoding_sets_bit_25x_plus_5y_plus_z() {
    assert_eq!(calculate_hash(&grid_of(&[(0, 0, 0)])), 1);
    assert_eq!(calculate_hash(&grid_of(&[(0, 0, 1)])), 2);
    assert_eq!(calculate_hash(&grid_of(&[(0, 1, 0)])), 32);
    assert_eq!(calculate_hash(&grid_of(&[(1, 0, 0)])), 1u128 << 25);
    assert_eq!(calculate_hash(&grid_of(&[(1, 2, 3)])), 1u128 << 38);
    assert_eq!(calculate_hash(&grid_of(&[(4, 4, 4)])), 1u128 << 124);
    assert_eq!(calculate_hash(&grid_of(&[(0, 0, 0), (0, 0, 1), (0, 1, 0)])), 35);
}

#[test]
fn encoding_of_full_grid_has_125_bits() {
    let grid = [[[true; 5]; 5]; 5];
    assert_eq!(calculate_hash(&grid), (1u128 << 125) - 1);
}

#[test]
fn copy_grid_copies_every_entry() {
    let src = sample_grid();
    let mut dst = grid_of(&[(3, 3, 3)]);
    copy_grid(&src, &mut dst);
    assert_eq!(dst, src);
}

#[test]
fn permuted_indices_pick_coordinates() {
    assert_eq!(get_permuted_indices(7, 8, 9, 0, 1, 2), (7, 8, 9));
    assert_eq!(get_permuted_indices(7, 8, 9, 2, 0, 1), (9, 7, 8));
    assert_eq!(get_permuted_indices(7, 8, 9, 1, 2, 0), (8, 9, 7));
}

#[test]
fn rotate_about_each_axis_moves_cells() {
    let mut grid = grid_of(&[(1, 2, 3)]);
    rotate_grid(&mut grid, 0);
    assert_eq!(grid, grid_of(&[(1, 3, 2)]));
    let mut grid = grid_of(&[(1, 2, 3)]);
    rotate_grid(&mut grid, 1);
    assert_eq!(grid, grid_of(&[(3, 2, 3)]));
    let mut grid = grid_of(&[(1, 2, 3)]);
    rotate_grid(&mut grid, 2);
    assert_eq!(grid, grid_of(&[(2, 3, 3)]));
}

#[test]
fn four_quarter_turns_restore_the_grid() {
    for axis in 0..3 {
        let mut grid = sample_grid();
        for _ in 0..4 {
            rotate_grid(&mut grid, axis);
        }
        assert_eq!(grid, sample_grid());
    }
}

#[test]
fn flip_along_each_axis_moves_cells() {
    let mut grid = grid_of(&[(1, 2, 3)]);
    flip_grid(&mut grid, 0);
    assert_eq!(grid, grid_of(&[(3, 2, 3)]));
    let mut grid = grid_of(&[(1, 2, 3)]);
    flip_grid(&mut grid, 1);
    assert_eq!(grid, grid_of(&[(1, 2, 3)]));
    let mut grid = grid_of(&[(1, 1, 3)]);
    flip_grid(&mut grid, 1);
    assert_eq!(grid, grid_of(&[(1, 3, 3)]));
    let mut grid = grid_of(&[(1, 2, 3)]);
    flip_grid(&mut grid, 2);
    assert_eq!(grid, grid_of(&[(1, 2, 1)]));
}

#[test]
fn permute_grid_reorders_axes() {
    let grid = grid_of(&[(1, 2, 3)]);
    assert_eq!(permute_grid(&grid, 0, 1, 2), grid_of(&[(1, 2, 3)]));
    assert_eq!(permute_grid(&grid, 2, 0, 1), grid_of(&[(3, 1, 2)]));
    assert_eq!(permute_grid(&grid, 1, 0, 2), grid_of(&[(2, 1, 3)]));
}

#[test]
fn least_hash_is_the_minimum() {
    let mut hashes: FxHashSet<u128> = FxHashSet::default();
    assert_eq!(least_hash(&hashes), 0);
    hashes.insert(900);
    hashes.insert(17);
    hashes.insert(1u128 << 100);
    hashes.insert(18);
    assert_eq!(least_hash(&hashes), 17);
}

#[test]
fn fingerprint_of_single_cell_is_its_least_image() {
    assert_eq!(grid_hash(&grid_of(&[(0, 0, 0)])), 1);
    assert_eq!(grid_hash(&grid_of(&[(4, 4, 4)])), 1);
    assert_eq!(grid_hash(&grid_of(&[(4, 0, 4)])), 1);
    assert_eq!(grid_hash(&grid_of(&[(2, 2, 2)])), 1u128 << 62);
    assert_eq!(grid_hash(&empty_grid()), 0);
}

#[test]
fn fingerprint_of_corner_pattern() {
    assert_eq!(grid_hash(&grid_of(&[(0, 0, 0), (0, 0, 1), (0, 1, 0)])), 35);
    assert_eq!(grid_hash(&grid_of(&[(4, 4, 4), (3, 4, 4), (4, 4, 3)])), 35);
}

#[test]
fn fingerprint_is_invariant_under_turns_flips_and_axis_orders() {
    let grid = sample_grid();
    let expected = grid_hash(&grid);
    for axis in 0..3 {
        let mut turned = grid;
        rotate_grid(&mut turned, axis);
        assert_eq!(grid_hash(&turned), expected);
        let mut flipped = grid;
        flip_grid(&mut flipped, axis);
        assert_eq!(grid_hash(&flipped), expected);
        rotate_grid(&mut flipped, (axis + 1) % 3);
        assert_eq!(grid_hash(&flipped), expected);
    }
    let orders = [(0, 1, 2), (0, 2, 1), (1, 0, 2), (1, 2, 0), (2, 0, 1), (2, 1, 0)];
    for (i, j, k) in orders {
        assert_eq!(grid_hash(&permute_grid(&grid, i, j, k)), expected);
    }
}

#[test]
fn fingerprint_is_at_most_the_plain_encoding() {
    let grid = sample_grid();
    assert!(grid_hash(&grid) <= calculate_hash(&grid));
}

#[test]
fn rotated_corner_pattern_has_same_fingerprint() {
    let original = grid_of(&[(0, 0, 0), (0, 0, 1), (0, 1, 0)]);
    let mut rotated = original;
    rotate_grid(&mut rotated, 0);
    assert_ne!(rotated, original);
    assert_eq!(grid_hash(&original), grid_hash(&rotated));
    let different = grid_of(&[(0, 0, 0), (0, 0, 1), (1, 1, 1)]);
    assert_ne!(grid_hash(&different), grid_hash(&original));
}

#[test]
fn l_shape_and_straight_line_differ() {
    let l_shape = grid_of(&[(0, 0, 0), (0, 0, 1), (0, 1, 0)]);
    let line = grid_of(&[(0, 0, 0), (0, 0, 1), (0, 0, 2)]);
    let pair = grid_of(&[(0, 0, 0), (0, 0, 1)]);
    assert_ne!(grid_hash(&l_shape), grid_hash(&line));
    assert_ne!(grid_hash(&l_shape), grid_hash(&pair));
    assert_ne!(grid_hash(&line), grid_hash(&pair));
    assert_eq!(grid_hash(&line), 7);
}

#[test]
fn hash_report_matches_known_fingerprints() {
    let report = test_hash_function();
    assert_eq!(report.original_hash, 35);
    assert_eq!(report.rotated_hash, 35);
    assert_eq!(report.flipped_hash, 35);
    assert_eq!(report.different_hash, (1u128 << 31) + 3);
    assert!(report.hashes_equal());
    assert!(report.distinguished());
}
