use brick_packer::catalog::{get_big_block_def, get_block_def, get_flat_block_def, get_pixel_block_def};
use brick_packer::cellset::CellSet;

#[test]
fn new_cell_set_is_empty() {
    let set = CellSet::new();
    assert_eq!(set.len(), 0);
    assert!(!set.contains(0, 0, 0));
    assert!(set.cells().is_empty());
}

#[test]
fn insert_adds_a_cell_once() {
    let mut set = CellSet::new();
    assert!(set.insert(1, 2, 3));
    assert!(!set.insert(1, 2, 3));
    assert!(set.insert(3, 2, 1));
    assert_eq!(set.len(), 2);
    assert!(set.contains(1, 2, 3));
    assert!(set.contains(3, 2, 1));
    assert!(!set.contains(2, 2, 2));
    assert!(!set.contains(1, 2, 4));
}

#[test]
fn cell_set_reaches_one_step_outside_the_cube() {
    let mut set = CellSet::new();
    assert!(set.insert(-1, 0, 5));
    assert!(set.insert(5, 5, 5));
    assert!(set.insert(-1, -1, -1));
    assert!(set.contains(-1, 0, 5));
    assert!(set.contains(5, 5, 5));
    assert!(set.contains(-1, -1, -1));
    assert!(!set.contains(0, 0, 5));
    assert!(!set.contains(6, 5, 5));
    assert!(!set.contains(-2, 0, 0));
    assert_eq!(set.len(), 3);
}

#[test]
fn remove_takes_a_cell_out() {
    let mut set = CellSet::new();
    set.insert(0, 0, 0);
    set.insert(4, 4, 4);
    assert!(set.remove(0, 0, 0));
    assert!(!set.remove(0, 0, 0));
    assert!(!set.remove(9, 9, 9));
    assert!(!set.contains(0, 0, 0));
    assert!(set.contains(4, 4, 4));
    assert_eq!(set.len(), 1);
}

#[test]
fn duplicate_shares_nothing_with_its_source() {
    let mut set = CellSet::new();
    set.insert(1, 1, 1);
    let mut copy = set.duplicate();
    copy.insert(2, 2, 2);
    copy.remove(1, 1, 1);
    assert!(set.contains(1, 1, 1));
    assert!(!set.contains(2, 2, 2));
    assert!(copy.contains(2, 2, 2));
    assert!(!copy.contains(1, 1, 1));
}

#[test]
fn cells_lists_every_cell_once() {
    let mut set = CellSet::new();
    let expected = vec![(-1, 3, 5), (0, 0, 0), (2, 4, 1), (5, -1, 2)];
    for &(x, y, z) in &expected {
        set.insert(x, y, z);
    }
    let mut listed = set.cells();
    listed.sort();
    assert_eq!(listed, expected);
}

#[test]
fn block_defs_list_all_orientations() {
    assert_eq!(get_big_block_def(), vec![(3, 2, 2), (2, 3, 2), (2, 2, 3)]);
    assert_eq!(get_flat_block_def(), vec![(1, 2, 4), (1, 4, 2), (2, 1, 4), (2, 4, 1), (4, 1, 2), (4, 2, 1)]);
    assert_eq!(get_pixel_block_def(), vec![(1, 1, 1)]);
}

#[test]
fn catalog_has_six_big_six_flat_five_pixels() {
    for no in 0..6 {
        assert_eq!(get_block_def(no), Some(get_big_block_def()));
    }
    for no in 6..12 {
        assert_eq!(get_block_def(no), Some(get_flat_block_def()));
    }
    for no in 12..17 {
        assert_eq!(get_block_def(no), Some(get_pixel_block_def()));
    }
    assert_eq!(get_block_def(17), None);
    assert_eq!(get_block_def(1000), None);
}

#[test]
fn catalog_volume_fills_the_cube() {
    let mut total = 0;
    for no in 0..17 {
        let def = get_block_def(no).unwrap();
        let (sx, sy, sz) = def[0];
        for &(x, y, z) in &def {
            assert_eq!(x * y * z, sx * sy * sz);
        }
        total += sx * sy * sz;
    }
    assert_eq!(total, 125);
}
