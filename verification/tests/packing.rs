use brick_packer::canon::grid_hash;
use brick_packer::catalog::get_block_def;
use brick_packer::search::{Search, Step};
use brick_packer::state::{SearchError, State};

const KNOWN_SOLUTION: [((i32, i32, i32), (i32, i32, i32)); 17] = [
    ((3, 2, 2), (0, 3, 1)),
    ((3, 2, 2), (2, 0, 2)),
    ((2, 2, 3), (0, 1, 0)),
    ((2, 3, 2), (1, 2, 3)),
    ((2, 3, 2), (2, 0, 0)),
    ((2, 2, 3), (3, 2, 2)),
    ((1, 4, 2), (4, 0, 0)),
    ((1, 4, 2), (0, 1, 3)),
    ((2, 1, 4), (0, 0, 0)),
    ((2, 1, 4), (3, 4, 1)),
    ((4, 2, 1), (1, 0, 4)),
    ((4, 2, 1), (0, 3, 0)),
    ((1, 1, 1), (1, 1, 3)),
    ((1, 1, 1), (0, 0, 4)),
    ((1, 1, 1), (3, 3, 1)),
    ((1, 1, 1), (4, 4, 0)),
    ((1, 1, 1), (2, 2, 2)),
];

fn replay(count: usize) -> State {
    let mut state = State::default();
    for &(block, pos) in &KNOWN_SOLUTION[..count] {
        state = state.try_place(block, pos, false).expect("legal placement");
    }
    state
}

fn cover_counts(state: &State) -> [[[u32; 5]; 5]; 5] {
    let mut counts = [[[0u32; 5]; 5]; 5];
    for p in state.placements() {
        for dx in 0..p.block.0 {
            for dy in 0..p.block.1 {
                for dz in 0..p.block.2 {
                    let (x, y, z) = (p.pos.0 + dx, p.pos.1 + dy, p.pos.2 + dz);
                    assert!((0..5).contains(&x) && (0..5).contains(&y) && (0..5).contains(&z));
                    counts[x as usize][y as usize][z as usize] += 1;
                }
            }
        }
    }
    counts
}

fn assert_tiles_with_free(state: &State) {
    let counts = cover_counts(state);
    let mut free = 0;
    for x in 0..5 {
        for y in 0..5 {
            for z in 0..5 {
                let is_free = state.is_free(x as i32, y as i32, z as i32);
                assert_eq!(counts[x][y][z] + u32::from(is_free), 1);
                free += usize::from(is_free);
            }
        }
    }
    assert_eq!(free, state.space_left());
}

fn free_grid(state: &State) -> [[[bool; 5]; 5]; 5] {
    let mut grid = [[[false; 5]; 5]; 5];
    for x in 0..5 {
        for y in 0..5 {
            for z in 0..5 {
                grid[x][y][z] = state.is_free(x as i32, y as i32, z as i32);
            }
        }
    }
    grid
}

#[test]
fn starting_state_has_all_cells_free() {
    let state = State::default();
    assert_eq!(state.space_left(), 125);
    assert!(state.placements().is_empty());
    for x in 0..5 {
        for y in 0..5 {
            for z in 0..5 {
                assert!(state.is_free(x, y, z));
            }
        }
    }
    assert!(!state.is_free(5, 0, 0));
    assert!(!state.is_free(0, -1, 0));
    assert!(state.on_boundary(0, 0, 0));
    assert!(!state.on_boundary(0, 0, 1));
    assert!(!state.on_boundary(-1, 0, 0));
}

#[test]
fn first_placement_removes_twelve_cells() {
    let start = State::default();
    let child = start.try_place((3, 2, 2), (0, 0, 0), true).expect("legal placement");
    assert_eq!(child.space_left(), 113);
    for x in 0..3 {
        for y in 0..2 {
            for z in 0..2 {
                assert!(!child.is_free(x, y, z));
            }
        }
    }
    assert!(child.is_free(3, 0, 0));
    assert!(child.is_free(0, 2, 0));
    assert!(child.is_free(0, 0, 2));
    assert_eq!(child.placements().len(), 1);
    assert_eq!(child.placements()[0].block, (3, 2, 2));
    assert_eq!(child.placements()[0].pos, (0, 0, 0));
    assert_eq!(start.space_left(), 125);
    assert!(start.is_free(0, 0, 0));
}

#[test]
fn placement_adds_face_neighbours_to_boundary() {
    let child = State::default().try_place((3, 2, 2), (0, 0, 0), false).expect("legal placement");
    assert!(child.on_boundary(-1, 0, 0));
    assert!(child.on_boundary(3, 1, 1));
    assert!(child.on_boundary(0, 2, 0));
    assert!(child.on_boundary(2, -1, 1));
    assert!(child.on_boundary(1, 1, 2));
    assert!(child.on_boundary(1, 1, -1));
    assert!(child.on_boundary(1, 1, 1));
    assert!(!child.on_boundary(3, 2, 0));
    assert!(!child.on_boundary(4, 0, 0));
    assert!(!child.on_boundary(-1, -1, 0));
    assert!(!child.on_boundary(0, 0, 3));
}

#[test]
fn fits_checks_free_cells_and_boundary() {
    let start = State::default();
    assert!(start.fits((3, 2, 2), (0, 0, 0), true));
    assert!(start.fits((3, 2, 2), (2, 3, 3), false));
    assert!(!start.fits((3, 2, 2), (2, 3, 3), true));
    assert!(!start.fits((3, 2, 2), (3, 0, 0), false));
    assert!(!start.fits((3, 2, 2), (0, 4, 0), false));
    assert!(!start.fits((3, 2, 2), (-1, 0, 0), false));
    assert!(!start.fits((1, 1, 1), (5, 5, 5), false));
    let child = start.try_place((3, 2, 2), (0, 0, 0), true).unwrap();
    assert!(!child.fits((2, 2, 3), (2, 1, 1), false));
    assert!(child.fits((2, 2, 3), (3, 0, 0), true));
    assert!(child.fits((2, 2, 3), (3, 3, 2), false));
    assert!(!child.fits((2, 2, 3), (3, 3, 2), true));
}

#[test]
fn try_place_rejects_illegal_placements() {
    let start = State::default();
    assert!(start.try_place((1, 1, 1), (0, 0, 0), false).is_none());
    assert!(start.try_place((1, 2, 4), (0, 0, 0), false).is_none());
    assert!(start.try_place((3, 2, 2), (3, 0, 0), false).is_none());
    assert!(start.try_place((3, 2, 2), (1, 1, 1), true).is_none());
    assert!(start.try_place((3, 2, 2), (1, 1, 1), false).is_some());
    let child = start.try_place((2, 3, 2), (0, 0, 0), true).unwrap();
    assert!(child.try_place((2, 2, 3), (1, 2, 1), false).is_none());
}

#[test]
fn successors_of_start_without_boundary_rule() {
    let start = State::default();
    let kids = start.next().expect("catalog has a brick");
    assert_eq!(kids.len(), 3 * 3 * 4 * 4);
    let mut seen = Vec::new();
    let def = get_block_def(0).unwrap();
    for kid in &kids {
        assert_eq!(kid.space_left(), 113);
        assert_eq!(kid.placements().len(), 1);
        let p = kid.placements()[0];
        assert!(def.contains(&p.block));
        assert!(!seen.contains(&(p.block, p.pos)));
        seen.push((p.block, p.pos));
        assert_tiles_with_free(kid);
    }
    assert!(seen.contains(&((3, 2, 2), (0, 0, 0))));
    assert!(seen.contains(&((2, 2, 3), (3, 3, 2))));
    assert!(seen.contains(&((2, 3, 2), (1, 2, 0))));
}

#[test]
fn successors_of_start_with_boundary_rule_contain_the_seed() {
    let start = State::default();
    let kids = start.successors(true).expect("catalog has a brick");
    assert_eq!(kids.len(), 3);
    for kid in &kids {
        assert_eq!(kid.space_left(), 113);
        assert_eq!(kid.placements()[0].pos, (0, 0, 0));
        assert!(!kid.is_free(0, 0, 0));
    }
}

#[test]
fn successors_follow_the_catalog_at_each_depth() {
    for depth in [0usize, 3, 5, 6, 9, 11, 12, 16] {
        let state = replay(depth);
        let def = get_block_def(depth).unwrap();
        let (sx, sy, sz) = def[0];
        let kids = state.successors(false).expect("catalog has a brick");
        assert!(!kids.is_empty());
        let expected = KNOWN_SOLUTION[depth];
        let mut found = false;
        for kid in &kids {
            assert_eq!(kid.placements().len(), depth + 1);
            let p = kid.placements()[depth];
            assert!(def.contains(&p.block));
            assert_eq!(kid.space_left() + (sx * sy * sz) as usize, state.space_left());
            found = found || (p.block, p.pos) == expected;
        }
        assert!(found);
    }
}

#[test]
fn children_do_not_change_their_parent() {
    let parent = replay(4);
    let before = free_grid(&parent);
    let kids = parent.successors(false).unwrap();
    assert!(!kids.is_empty());
    assert_eq!(free_grid(&parent), before);
    assert_eq!(parent.placements().len(), 4);
}

#[test]
fn known_solution_tiles_the_cube() {
    let mut state = State::default();
    let mut left = 125;
    for (depth, &(block, pos)) in KNOWN_SOLUTION.iter().enumerate() {
        assert_eq!(state.placements().len(), depth);
        state = state.try_place(block, pos, false).expect("legal placement");
        left -= (block.0 * block.1 * block.2) as usize;
        assert_eq!(state.space_left(), left);
        assert_tiles_with_free(&state);
    }
    assert_eq!(state.space_left(), 0);
    assert_eq!(state.placements().len(), 17);
    let counts = cover_counts(&state);
    for plane in counts {
        for row in plane {
            for count in row {
                assert_eq!(count, 1);
            }
        }
    }
}

#[test]
fn full_state_has_exhausted_the_catalog() {
    let state = replay(17);
    assert_eq!(state.space_left(), 0);
    assert_eq!(state.successors(false).err(), Some(SearchError::CatalogExhausted));
    assert_eq!(state.successors(true).err(), Some(SearchError::CatalogExhausted));
    assert_eq!(state.next().err(), Some(SearchError::CatalogExhausted));
    assert!(state.try_place((1, 1, 1), (0, 0, 0), false).is_none());
}

#[test]
fn state_hash_is_fingerprint_of_free_cells() {
    let start = State::default();
    assert_eq!(start.hash(), (1u128 << 125) - 1);
    let state = replay(3);
    assert_eq!(state.hash(), grid_hash(&free_grid(&state)));
    let full = replay(17);
    assert_eq!(full.hash(), 0);
}

#[test]
fn congruent_children_share_a_fingerprint() {
    let start = State::default();
    let a = start.try_place((3, 2, 2), (0, 0, 0), false).unwrap();
    let b = start.try_place((2, 3, 2), (0, 0, 0), false).unwrap();
    let c = start.try_place((2, 2, 3), (3, 3, 2), false).unwrap();
    let d = start.try_place((3, 2, 2), (1, 0, 0), false).unwrap();
    assert_eq!(a.hash(), b.hash());
    assert_eq!(a.hash(), c.hash());
    assert_ne!(a.hash(), d.hash());
}

#[test]
fn new_search_holds_the_empty_cube() {
    let search = Search::new(true);
    assert_eq!(search.frontier_len(), 1);
    assert_eq!(search.collisions(), 0);
}

#[test]
fn first_step_expands_the_empty_cube() {
    let mut search = Search::new(false);
    match search.step() {
        Step::Running { placements, space_left } => {
            assert_eq!(placements, 0);
            assert_eq!(space_left, 125);
        }
        _ => panic!("the first step expands a state"),
    }
    assert_eq!(search.frontier_len(), 144);
    assert_eq!(search.collisions(), 0);
}

#[test]
fn search_takes_the_fullest_state_first() {
    let mut search = Search::new(true);
    let mut expected_left = [125usize, 113, 101, 89].into_iter();
    let mut previous = 0;
    for _ in 0..4 {
        match search.step() {
            Step::Running { placements, space_left } => {
                assert_eq!(Some(space_left), expected_left.next());
                assert_eq!(placements, previous);
                previous += 1;
            }
            _ => panic!("the search is still running"),
        }
    }
    assert!(search.frontier_len() > 0);
}

#[test]
fn search_drops_successors_of_a_seen_fingerprint() {
    let mut search = Search::new(true);
    assert!(matches!(search.step(), Step::Running { .. }));
    assert_eq!(search.frontier_len(), 3);
    assert!(matches!(search.step(), Step::Running { .. }));
    let after_second = search.frontier_len();
    assert!(after_second > 2);
    let mut steps = 2;
    while search.collisions() == 0 && steps < 60 {
        assert!(matches!(search.step(), Step::Running { .. }));
        steps += 1;
    }
    assert!(search.collisions() > 0);
}

fn assert_is_tiling(solution: &State) {
    assert_eq!(solution.space_left(), 0);
    assert_eq!(solution.placements().len(), 17);
    for (depth, p) in solution.placements().iter().enumerate() {
        assert!(get_block_def(depth).unwrap().contains(&p.block));
    }
    let counts = cover_counts(solution);
    for plane in counts {
        for row in plane {
            for count in row {
                assert_eq!(count, 1);
            }
        }
    }
}

#[test]
fn search_completes_a_partial_packing() {
    let mut search = Search::from_state(replay(10), false);
    let solution = search.run().expect("the partial packing can be completed");
    assert_is_tiling(&solution);
    for (depth, &(block, pos)) in KNOWN_SOLUTION[..10].iter().enumerate() {
        assert_eq!(solution.placements()[depth].block, block);
        assert_eq!(solution.placements()[depth].pos, pos);
    }
}

#[test]
fn search_completes_after_the_big_bricks() {
    let mut search = Search::from_state(replay(6), true);
    let solution = search.run().expect("the partial packing can be completed");
    assert_is_tiling(&solution);
    for (depth, &(block, pos)) in KNOWN_SOLUTION[..6].iter().enumerate() {
        assert_eq!(solution.placements()[depth].block, block);
        assert_eq!(solution.placements()[depth].pos, pos);
    }
}

#[test]
fn search_completes_after_four_bricks() {
    let mut search = Search::from_state(replay(4), false);
    let solution = search.run().expect("the partial packing can be completed");
    assert_is_tiling(&solution);
}

#[test]
fn search_places_the_last_single_cells() {
    let mut search = Search::from_state(replay(12), true);
    let mut steps = 0;
    let solution = loop {
        steps += 1;
        match search.step() {
            Step::Running { placements, space_left } => {
                assert_eq!(placements + space_left, 17);
            }
            Step::Solved(state) => break state,
            Step::Exhausted => panic!("five single cells fill five free cells"),
        }
    };
    assert_eq!(steps, 6);
    assert_is_tiling(&solution);
}

#[test]
fn search_with_empty_frontier_is_exhausted() {
    let mut search = Search::from_state(replay(17), false);
    assert!(matches!(search.step(), Step::Solved(_)));
    assert_eq!(search.frontier_len(), 0);
    assert!(matches!(search.step(), Step::Exhausted));
    assert!(matches!(search.step(), Step::Exhausted));
    assert!(search.run().is_none());
}

#[test]
fn solved_state_is_returned_without_expansion() {
    let solved = solve_from(replay(17));
    assert_is_tiling(&solved);
}

fn solve_from(start: State) -> State {
    let mut search = Search::from_state(start, true);
    search.run().expect("a full cube is a solution")
}
