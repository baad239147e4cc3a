//! The canonical fingerprint of an occupancy grid.
//!
//! The grid is brought into every orientation that axis permutations,
//! quarter turns about two axes and single reflections reach. Each
//! orientation is encoded, and the least encoding is the fingerprint. The
//! orientations visited cover all 48 symmetries of the cube, so congruent
//! grids have the same fingerprint.

use crate::fxset::{fx_set_insert, fx_set_keys, fx_set_new};
use crate::grid::{at, calculate_hash, cells, copy_grid, flip_grid, get_permuted_indices, lemma_moved_grid, lemma_shift_is_weight, precedes, rotate_grid, Grid};
use crate::pattern::{axis_permutation, axis_source, compose, coord, cube, fingerprint, fingerprint_attained, fingerprint_discriminates, fingerprint_invariant, fingerprint_least, in_cube, inverse, is_symmetry, lemma_pattern_bits_bound, lemma_transform_compose, pattern_bits, reflection, rotation, source_cell, transform, Cell, Symmetry};
use fxhash::FxHashSet;
use vstd::prelude::*;
use vstd::std_specs::hash::axiom_u128_obeys_hash_table_key_model;

verus! {

/// The axis orders that the enumeration starts from, as a list of six.
pub open spec fn listed_order(n: int) -> (int, int, int) {
    if n == 0 {
        (0, 1, 2)
    } else if n == 1 {
        (0, 2, 1)
    } else if n == 2 {
        (1, 0, 2)
    } else if n == 3 {
        (1, 2, 0)
    } else if n == 4 {
        (2, 0, 1)
    } else {
        (2, 1, 0)
    }
}

/// The symmetry `t` followed by `n` quarter turns about `axis`. Four
/// quarter turns bring every pattern back.
pub open spec fn spun(axis: int, n: int, t: Symmetry) -> Symmetry {
    let r = rotation(axis);
    if n % 4 == 0 {
        t
    } else if n % 4 == 1 {
        compose(r, t)
    } else if n % 4 == 2 {
        compose(r, compose(r, t))
    } else {
        compose(r, compose(r, compose(r, t)))
    }
}

/// The orientation reached from axis order number `order` after `a` quarter
/// turns about the first axis and `b` about the second.
pub open spec fn orientation(order: int, a: int, b: int) -> Symmetry {
    let o = listed_order(order);
    spun(1, b, spun(0, a, axis_permutation(o.0, o.1, o.2)))
}

/// The symmetry of candidate number `n` of the enumeration, `0 <= n < 384`:
/// an orientation, taken as it is or after one of the three reflections.
pub open spec fn candidate(n: int) -> Symmetry {
    let base = orientation(n / 64, (n / 16) % 4, (n / 4) % 4);
    if n % 4 == 0 {
        base
    } else {
        compose(reflection(n % 4 - 1), base)
    }
}

/// The encoding of candidate number `n` for the pattern `p`.
pub open spec fn candidate_bits(p: Set<Cell>, n: int) -> int {
    pattern_bits(transform(candidate(n), p))
}

/// Every candidate of the enumeration is a symmetry of the cube.
pub proof fn lemma_candidate_is_symmetry(n: int)
    requires
        0 <= n < 384,
    ensures
        is_symmetry(candidate(n)),
{
    let o = listed_order(n / 64);
    let p = axis_permutation(o.0, o.1, o.2);
    assert(is_symmetry(p));
    let s = spun(0, (n / 16) % 4, p);
    assert(is_symmetry(s));
    let base = spun(1, (n / 4) % 4, s);
    assert(is_symmetry(base));
}

/// Every symmetry of the cube is a candidate of the enumeration.
pub proof fn lemma_candidate_complete(s: Symmetry) -> (n: int)
    requires
        is_symmetry(s),
    ensures
        0 <= n < 384,
        candidate(n) == s,
{
    let i = axis_source(s, 0);
    let j = axis_source(s, 1);
    let order: int = if i == 0 {
        if j == 1 { 0 } else { 1 }
    } else if i == 1 {
        if j == 0 { 2 } else { 3 }
    } else {
        if j == 0 { 4 } else { 5 }
    };
    let d = inverse(s);
    let count: int = (if d.fx { 1int } else { 0int }) + (if d.fy { 1int } else { 0int }) + (if d.fz { 1int } else { 0int });
    let a: int = if count >= 2 && d.fy && d.fz { 2 } else if count == 2 && d.fx && d.fy { 2 } else { 0 };
    let b: int = if count == 2 && d.fx { 2 } else { 0 };
    let f: int = if count == 3 {
        1
    } else if count == 1 {
        if d.fx { 1 } else if d.fy { 2 } else { 3 }
    } else {
        0
    };
    let n = 64 * order + 16 * a + 4 * b + f;
    assert(n / 64 == order && (n / 16) % 4 == a && (n / 4) % 4 == b && n % 4 == f);
    let o = listed_order(order);
    let p = axis_permutation(o.0, o.1, o.2);
    assert(p.px == s.px && p.py == s.py && p.pz == s.pz);
    let base = spun(1, b, spun(0, a, p));
    assert(base.px == s.px && base.py == s.py && base.pz == s.pz);
    assert(candidate(n) == s);
    n
}

/// The grid whose entry at coordinates number `i`, `j` and `k` of each cell
/// is the entry of `grid` at that cell.
pub fn permute_grid(grid: &Grid, i: usize, j: usize, k: usize) -> (permuted: Grid)
    requires
        i < 3,
        j < 3,
        k < 3,
        i != j,
        j != k,
        i != k,
    ensures
        cells(permuted) == transform(axis_permutation(i as int, j as int, k as int), cells(*grid)),
{
    let mut permuted: Grid = [[[false; 5]; 5]; 5];
    let ghost moved = |c: Cell| (coord(c, i as int), coord(c, j as int), coord(c, k as int));
    let mut x: usize = 0;
    while x < 5
        invariant
            x <= 5,
            i < 3 && j < 3 && k < 3 && i != j && j != k && i != k,
            moved == |c: Cell| (coord(c, i as int), coord(c, j as int), coord(c, k as int)),
            forall|c: Cell| in_cube(c) && precedes(c, x as int, 0, 0) ==> at(permuted, moved(c)) == #[trigger] at(*grid, c),
        decreases 5 - x,
    {
        let mut y: usize = 0;
        while y < 5
            invariant
                x < 5,
                y <= 5,
                i < 3 && j < 3 && k < 3 && i != j && j != k && i != k,
                moved == |c: Cell| (coord(c, i as int), coord(c, j as int), coord(c, k as int)),
                forall|c: Cell| in_cube(c) && precedes(c, x as int, y as int, 0) ==> at(permuted, moved(c)) == #[trigger] at(*grid, c),
            decreases 5 - y,
        {
            let mut z: usize = 0;
            while z < 5
                invariant
                    x < 5,
                    y < 5,
                    z <= 5,
                    i < 3 && j < 3 && k < 3 && i != j && j != k && i != k,
                    moved == |c: Cell| (coord(c, i as int), coord(c, j as int), coord(c, k as int)),
                    forall|c: Cell| in_cube(c) && precedes(c, x as int, y as int, z as int) ==> at(permuted, moved(c)) == #[trigger] at(*grid, c),
                decreases 5 - z,
            {
                let new_indices = get_permuted_indices(x, y, z, i, j, k);
                permuted[new_indices.0][new_indices.1][new_indices.2] = grid[x][y][z];
                z += 1;
            }
            y += 1;
        }
        x += 1;
    }
    proof {
        let t = axis_permutation(i as int, j as int, k as int);
        assert forall|c: Cell| in_cube(c) implies #[trigger] at(permuted, c) == at(*grid, source_cell(t, c)) by {
            let s = source_cell(t, c);
            assert(in_cube(s));
            assert(moved(s) == c);
            assert(at(permuted, moved(s)) == at(*grid, s));
        }
        lemma_moved_grid(*grid, permuted, t);
    }
    permuted
}

/// The least key of a set of encodings, or 0 for the empty set.
pub fn least_hash(hashes: &FxHashSet<u128>) -> (least: u128)
    ensures
        hashes@ != Set::<u128>::empty() ==> hashes@.contains(least),
        hashes@ == Set::<u128>::empty() ==> least == 0,
        forall|h: u128| hashes@.contains(h) ==> least <= h,
{
    let keys = fx_set_keys(hashes);
    let mut found: Option<u128> = None;
    let mut n: usize = 0;
    while n < keys.len()
        invariant
            n <= keys.len(),
            keys@.to_set() == hashes@,
            found is None <==> n == 0,
            found is Some ==> exists|m: int| 0 <= m < n && keys[m] == found->0,
            found is Some ==> forall|m: int| 0 <= m < n ==> found->0 <= keys[m],
        decreases keys.len() - n,
    {
        let key = keys[n];
        found = match found {
            None => Some(key),
            Some(least) => Some(if key < least { key } else { least }),
        };
        n += 1;
    }
    proof {
        assert forall|h: u128| hashes@.contains(h) implies keys@.contains(h) by {
            assert(keys@.to_set().contains(h));
        }
        if keys.len() == 0 {
            assert(hashes@ =~= Set::<u128>::empty());
        }
    }
    match found {
        Some(least) => {
            proof {
                let m = choose|m: int| 0 <= m < n && keys[m] == least;
                assert(keys@.contains(keys[m]));
                assert(keys@.to_set().contains(least));
                assert forall|h: u128| hashes@.contains(h) implies least <= h by {
                    assert(keys@.contains(h));
                    let q = choose|q: int| 0 <= q < keys@.len() && keys@[q] == h;
                    assert(least <= keys[q]);
                }
            }
            least
        },
        None => 0,
    }
}

/// Every key of the set is the encoding of a candidate for `p`.
spec fn only_candidates(hashes: Set<u128>, p: Set<Cell>) -> bool {
    forall|h: u128| hashes.contains(h) ==> exists|n: int| 0 <= n < 384 && h == #[trigger] candidate_bits(p, n)
}

/// The set holds the encodings of the candidates below number `upto`.
spec fn holds_candidates(hashes: Set<u128>, p: Set<Cell>, upto: int) -> bool {
    forall|n: int| 0 <= n < upto ==> hashes.contains(#[trigger] candidate_bits(p, n) as u128)
}

/// The encoding of a pattern fits into 128 bits.
pub proof fn lemma_pattern_bits_fit(p: Set<Cell>)
    ensures
        0 <= pattern_bits(p) < 0x2000_0000_0000_0000_0000_0000_0000_0000,
{
    lemma_pattern_bits_bound(p, 125);
    lemma_shift_is_weight(125);
    assert((1u128 << 125u128) == 0x2000_0000_0000_0000_0000_0000_0000_0000u128) by (bit_vector);
}

proof fn lemma_candidate_added(hashes: Set<u128>, p: Set<Cell>, n: int, h: u128)
    requires
        only_candidates(hashes, p),
        holds_candidates(hashes, p, n),
        0 <= n < 384,
        h == candidate_bits(p, n),
    ensures
        only_candidates(hashes.insert(h), p),
        holds_candidates(hashes.insert(h), p, n + 1),
{
    assert forall|m: int| 0 <= m < n + 1 implies hashes.insert(h).contains(#[trigger] candidate_bits(p, m) as u128) by {
        if m < n {
            assert(hashes.contains(candidate_bits(p, m) as u128));
        }
    }
}

proof fn lemma_least_is_fingerprint(hashes: Set<u128>, p: Set<Cell>, least: u128)
    requires
        only_candidates(hashes, p),
        holds_candidates(hashes, p, 384),
        hashes.contains(least),
        forall|h: u128| hashes.contains(h) ==> least <= h,
    ensures
        least == fingerprint(p),
{
    let n = choose|n: int| 0 <= n < 384 && least == #[trigger] candidate_bits(p, n);
    lemma_candidate_is_symmetry(n);
    fingerprint_least(p, candidate(n));
    let s = fingerprint_attained(p);
    let m = lemma_candidate_complete(s);
    lemma_pattern_bits_fit(transform(s, p));
    assert(hashes.contains(candidate_bits(p, m) as u128));
}

/// The canonical fingerprint of the grid's pattern: the least encoding
/// among its images under the 48 symmetries of the cube.
pub fn grid_hash(grid: &Grid) -> (hash: u128)
    ensures
        hash == fingerprint(cells(*grid)),
{
    broadcast use axiom_u128_obeys_hash_table_key_model;

    let ghost p = cells(*grid);
    let mut unique_hashes: FxHashSet<u128> = fx_set_new();
    let permutations: [(usize, usize, usize); 6] = [
        (0, 1, 2),
        (0, 2, 1),
        (1, 0, 2),
        (1, 2, 0),
        (2, 0, 1),
        (2, 1, 0),
    ];
    let mut order: usize = 0;
    while order < 6
        invariant
            order <= 6,
            p == cells(*grid),
            forall|n: int| 0 <= n < 6 ==> (#[trigger] permutations[n]).0 == listed_order(n).0 && permutations[n].1 == listed_order(n).1 && permutations[n].2 == listed_order(n).2,
            only_candidates(unique_hashes@, p),
            holds_candidates(unique_hashes@, p, 64 * order),
        decreases 6 - order,
    {
        let (i, j, k) = permutations[order];
        let mut permuted = permute_grid(grid, i, j, k);
        let mut a: usize = 0;
        while a < 4
            invariant
                a <= 4,
                order < 6,
                cells(permuted) == transform(orientation(order as int, a as int, 0), p),
                only_candidates(unique_hashes@, p),
                holds_candidates(unique_hashes@, p, 64 * order + 16 * a),
            decreases 4 - a,
        {
            let mut b: usize = 0;
            while b < 4
                invariant
                    a < 4,
                    b <= 4,
                    order < 6,
                    cells(permuted) == transform(orientation(order as int, a as int, b as int), p),
                    only_candidates(unique_hashes@, p),
                    holds_candidates(unique_hashes@, p, 64 * order + 16 * a + 4 * b),
                decreases 4 - b,
            {
                let ghost here = 64 * order + 16 * a + 4 * b;
                let ghost base = orientation(order as int, a as int, b as int);
                proof {
                    assert(here / 64 == order && (here / 16) % 4 == a && (here / 4) % 4 == b && here % 4 == 0);
                    assert(candidate(here) == base);
                    lemma_candidate_is_symmetry(here);
                    lemma_pattern_bits_fit(transform(base, p));
                }
                let hash = calculate_hash(&permuted);
                proof {
                    lemma_candidate_added(unique_hashes@, p, here, hash);
                }
                fx_set_insert(&mut unique_hashes, hash);

                let mut axis: usize = 0;
                while axis < 3
                    invariant
                        a < 4,
                        b < 4,
                        order < 6,
                        axis <= 3,
                        here == 64 * order + 16 * a + 4 * b,
                        base == orientation(order as int, a as int, b as int),
                        is_symmetry(base),
                        cells(permuted) == transform(base, p),
                        only_candidates(unique_hashes@, p),
                        holds_candidates(unique_hashes@, p, here + 1 + axis),
                    decreases 3 - axis,
                {
                    let mut flipped: Grid = [[[false; 5]; 5]; 5];
                    copy_grid(&permuted, &mut flipped);
                    flip_grid(&mut flipped, axis);
                    let flipped_hash = calculate_hash(&flipped);
                    proof {
                        let n = here + 1 + axis;
                        assert(n / 64 == order && (n / 16) % 4 == a && (n / 4) % 4 == b && n % 4 == axis + 1);
                        assert(candidate(n) == compose(reflection(axis as int), base));
                        lemma_transform_compose(reflection(axis as int), base, p);
                        lemma_pattern_bits_fit(transform(candidate(n), p));
                        lemma_candidate_added(unique_hashes@, p, n, flipped_hash);
                    }
                    fx_set_insert(&mut unique_hashes, flipped_hash);
                    axis += 1;
                }

                rotate_grid(&mut permuted, 1);
                proof {
                    lemma_transform_compose(rotation(1), base, p);
                    assert(compose(rotation(1), base) == orientation(order as int, a as int, b + 1));
                }
                b += 1;
            }
            rotate_grid(&mut permuted, 0);
            proof {
                let base = orientation(order as int, a as int, 0);
                assert(orientation(order as int, a as int, 4) == base);
                lemma_candidate_is_symmetry(64 * order + 16 * a);
                assert(candidate(64 * order + 16 * a) == base);
                lemma_transform_compose(rotation(0), base, p);
                assert(compose(rotation(0), base) == orientation(order as int, a + 1, 0));
            }
            a += 1;
        }
        order += 1;
    }
    let least = least_hash(&unique_hashes);
    proof {
        lemma_pattern_bits_fit(transform(candidate(0), p));
        assert(unique_hashes@.contains(candidate_bits(p, 0) as u128));
        lemma_least_is_fingerprint(unique_hashes@, p, least);
    }
    least
}

/// The fingerprints that the self-check of the canonicalizer compares.
#[derive(Debug, Clone, Copy)]
pub struct HashReport {
    /// The fingerprint of the corner pattern.
    pub original_hash: u128,
    /// The fingerprint of the corner pattern after a quarter turn.
    pub rotated_hash: u128,
    /// The fingerprint of the corner pattern after a reflection.
    pub flipped_hash: u128,
    /// The fingerprint of a pattern that is not congruent to the corner pattern.
    pub different_hash: u128,
}

impl HashReport {
    /// Whether the corner pattern, its turn and its reflection agree.
    pub fn hashes_equal(&self) -> (equal: bool)
        ensures
            equal == (self.original_hash == self.rotated_hash && self.rotated_hash == self.flipped_hash),
    {
        self.original_hash == self.rotated_hash && self.rotated_hash == self.flipped_hash
    }

    /// Whether the pattern that is not congruent got another fingerprint.
    pub fn distinguished(&self) -> (distinct: bool)
        ensures
            distinct == (self.original_hash != self.different_hash),
    {
        self.original_hash != self.different_hash
    }
}

/// Three cells in a corner of the cube that form an L.
pub open spec fn corner_pattern() -> Set<Cell> {
    set![(0int, 0int, 0int), (0int, 0int, 1int), (0int, 1int, 0int)]
}

/// Three cells of which one touches neither of the other two.
pub open spec fn scattered_pattern() -> Set<Cell> {
    set![(0int, 0int, 0int), (0int, 0int, 1int), (1int, 1int, 1int)]
}

/// No symmetry of the cube carries the corner pattern onto the scattered one.
pub proof fn lemma_patterns_not_congruent()
    ensures
        fingerprint(corner_pattern()) != fingerprint(scattered_pattern()),
{
    if fingerprint(corner_pattern()) == fingerprint(scattered_pattern()) {
        let t = fingerprint_discriminates(corner_pattern(), scattered_pattern());
        let c: Cell = (1, 1, 1);
        assert(scattered_pattern().intersect(cube()).contains(c));
        assert(!corner_pattern().contains(source_cell(t, c)));
        assert(!transform(t, corner_pattern()).contains(c));
    }
}

/// Runs the canonicalizer on a small pattern, on a turn and a reflection of
/// it, and on a pattern of another shape, and reports the four fingerprints.
/// The first three are equal and the fourth differs from them.
pub fn test_hash_function() -> (report: HashReport)
    ensures
        report.original_hash == fingerprint(corner_pattern()),
        report.rotated_hash == report.original_hash,
        report.flipped_hash == report.original_hash,
        report.different_hash == fingerprint(scattered_pattern()),
        report.different_hash != report.original_hash,
{
    let mut original_grid: Grid = [[[false; 5]; 5]; 5];
    original_grid[0][0][0] = true;
    original_grid[0][0][1] = true;
    original_grid[0][1][0] = true;
    assert(cells(original_grid) =~= corner_pattern());
    let original_hash = grid_hash(&original_grid);

    let mut rotated_grid: Grid = [[[false; 5]; 5]; 5];
    copy_grid(&original_grid, &mut rotated_grid);
    rotate_grid(&mut rotated_grid, 0);
    let rotated_hash = grid_hash(&rotated_grid);

    let mut flipped_grid: Grid = [[[false; 5]; 5]; 5];
    copy_grid(&original_grid, &mut flipped_grid);
    flip_grid(&mut flipped_grid, 0);
    let flipped_hash = grid_hash(&flipped_grid);

    let mut different_grid: Grid = [[[false; 5]; 5]; 5];
    different_grid[0][0][0] = true;
    different_grid[0][0][1] = true;
    different_grid[1][1][1] = true;
    assert(cells(different_grid) =~= scattered_pattern());
    let different_hash = grid_hash(&different_grid);

    proof {
        fingerprint_invariant(corner_pattern(), rotation(0));
        fingerprint_invariant(corner_pattern(), reflection(0));
        lemma_patterns_not_congruent();
    }
    HashReport { original_hash, rotated_hash, flipped_hash, different_hash }
}

} // verus!
