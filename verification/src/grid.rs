//! The occupancy grid as executable data, and the operations on it that the
//! canonical fingerprint is built from: copying, quarter turns, reflections
//! and the 125-bit encoding.

use vstd::prelude::*;
use crate::pattern::{bit_weight, cell_at, coord, in_cube, is_symmetry, lemma_bit_weight, lemma_pattern_bits_bound, lemma_source_in_cube, pattern_bits, pattern_bits_below, reflection, rotation, source_cell, transform, Cell, Symmetry};

verus! {

/// A 5×5×5 grid of booleans, indexed `[x][y][z]`.
pub type Grid = [[[bool; 5]; 5]; 5];

/// The entry of a grid at a cell.
pub open spec fn at(g: Grid, c: Cell) -> bool {
    g[c.0][c.1][c.2]
}

/// The pattern that a grid holds: the cells whose entry is `true`.
pub open spec fn cells(g: Grid) -> Set<Cell> {
    Set::new(|c: Cell| in_cube(c) && at(g, c))
}

/// Whether `c` comes before `(x, y, z)` when the cube is walked with `x`
/// outermost and `z` innermost.
pub open spec fn precedes(c: Cell, x: int, y: int, z: int) -> bool {
    c.0 < x || (c.0 == x && (c.1 < y || (c.1 == y && c.2 < z)))
}

/// Where a quarter turn about `axis` moves the cell `c`.
spec fn turned(axis: int, c: Cell) -> Cell {
    if axis == 0 {
        (c.0, c.2, 4 - c.1)
    } else if axis == 1 {
        (c.2, c.1, 4 - c.0)
    } else {
        (c.1, 4 - c.0, c.2)
    }
}

/// Where the reflection of coordinate number `axis` moves the cell `c`.
spec fn mirrored(axis: int, c: Cell) -> Cell {
    if axis == 0 {
        (4 - c.0, c.1, c.2)
    } else if axis == 1 {
        (c.0, 4 - c.1, c.2)
    } else {
        (c.0, c.1, 4 - c.2)
    }
}

/// A grid whose entries are those of another, read through a symmetry,
/// holds the image of the other's pattern.
pub proof fn lemma_moved_grid(before: Grid, after: Grid, t: Symmetry)
    requires
        is_symmetry(t),
        forall|c: Cell| in_cube(c) ==> #[trigger] at(after, c) == at(before, source_cell(t, c)),
    ensures
        cells(after) == transform(t, cells(before)),
{
    assert forall|c: Cell| cells(after).contains(c) == transform(t, cells(before)).contains(c) by {
        if in_cube(c) {
            lemma_source_in_cube(t, c);
            assert(at(after, c) == at(before, source_cell(t, c)));
        }
    }
    assert(cells(after) =~= transform(t, cells(before)));
}

/// Copies every entry of `src` into `dst`.
pub fn copy_grid(src: &Grid, dst: &mut Grid)
    ensures
        forall|c: Cell| in_cube(c) ==> #[trigger] at(*final(dst), c) == at(*src, c),
        cells(*final(dst)) == cells(*src),
{
    let mut x: usize = 0;
    while x < 5
        invariant
            x <= 5,
            forall|c: Cell| in_cube(c) && precedes(c, x as int, 0, 0) ==> #[trigger] at(*dst, c) == at(*src, c),
        decreases 5 - x,
    {
        let mut y: usize = 0;
        while y < 5
            invariant
                x < 5,
                y <= 5,
                forall|c: Cell| in_cube(c) && precedes(c, x as int, y as int, 0) ==> #[trigger] at(*dst, c) == at(*src, c),
            decreases 5 - y,
        {
            let mut z: usize = 0;
            while z < 5
                invariant
                    x < 5,
                    y < 5,
                    z <= 5,
                    forall|c: Cell| in_cube(c) && precedes(c, x as int, y as int, z as int) ==> #[trigger] at(*dst, c) == at(*src, c),
                decreases 5 - z,
            {
                let ghost prev = *dst;
                dst[x][y][z] = src[x][y][z];
                assert(forall|c: Cell| in_cube(c) && c != (x as int, y as int, z as int) ==> #[trigger] at(*dst, c) == at(prev, c));
                z += 1;
            }
            y += 1;
        }
        x += 1;
    }
    proof {
        assert(cells(*dst) =~= cells(*src));
    }
}

/// Picks coordinates number `i`, `j` and `k` of `(x, y, z)`.
pub fn get_permuted_indices(x: usize, y: usize, z: usize, i: usize, j: usize, k: usize) -> (r: (usize, usize, usize))
    requires
        i < 3,
        j < 3,
        k < 3,
    ensures
        r.0 == coord((x as int, y as int, z as int), i as int),
        r.1 == coord((x as int, y as int, z as int), j as int),
        r.2 == coord((x as int, y as int, z as int), k as int),
{
    let coords = [x, y, z];
    (coords[i], coords[j], coords[k])
}

/// Turns the grid by a quarter about `axis`.
pub fn rotate_grid(grid: &mut Grid, axis: usize)
    requires
        axis < 3,
    ensures
        cells(*final(grid)) == transform(rotation(axis as int), cells(*old(grid))),
{
    let mut rotated: Grid = [[[false; 5]; 5]; 5];
    let mut x: usize = 0;
    while x < 5
        invariant
            x <= 5,
            axis < 3,
            *grid == *old(grid),
            forall|c: Cell| in_cube(c) && precedes(c, x as int, 0, 0) ==> at(rotated, turned(axis as int, c)) == #[trigger] at(*grid, c),
        decreases 5 - x,
    {
        let mut y: usize = 0;
        while y < 5
            invariant
                x < 5,
                y <= 5,
                axis < 3,
                *grid == *old(grid),
                forall|c: Cell| in_cube(c) && precedes(c, x as int, y as int, 0) ==> at(rotated, turned(axis as int, c)) == #[trigger] at(*grid, c),
            decreases 5 - y,
        {
            let mut z: usize = 0;
            while z < 5
                invariant
                    x < 5,
                    y < 5,
                    z <= 5,
                    axis < 3,
                    *grid == *old(grid),
                    forall|c: Cell| in_cube(c) && precedes(c, x as int, y as int, z as int) ==> at(rotated, turned(axis as int, c)) == #[trigger] at(*grid, c),
                decreases 5 - z,
            {
                if axis == 0 {
                    rotated[x][z][4 - y] = grid[x][y][z];
                } else if axis == 1 {
                    rotated[z][y][4 - x] = grid[x][y][z];
                } else {
                    rotated[y][4 - x][z] = grid[x][y][z];
                }
                z += 1;
            }
            y += 1;
        }
        x += 1;
    }
    let ghost before = *grid;
    copy_grid(&rotated, grid);
    proof {
        let t = rotation(axis as int);
        assert forall|c: Cell| in_cube(c) implies #[trigger] at(*grid, c) == at(before, source_cell(t, c)) by {
            let s = source_cell(t, c);
            assert(in_cube(s));
            assert(turned(axis as int, s) == c);
            assert(at(rotated, turned(axis as int, s)) == at(before, s));
        }
        lemma_moved_grid(before, *grid, t);
    }
}

/// Mirrors the grid along coordinate number `axis`.
pub fn flip_grid(grid: &mut Grid, axis: usize)
    requires
        axis < 3,
    ensures
        cells(*final(grid)) == transform(reflection(axis as int), cells(*old(grid))),
{
    let mut flipped: Grid = [[[false; 5]; 5]; 5];
    let mut x: usize = 0;
    while x < 5
        invariant
            x <= 5,
            axis < 3,
            *grid == *old(grid),
            forall|c: Cell| in_cube(c) && precedes(c, x as int, 0, 0) ==> at(flipped, mirrored(axis as int, c)) == #[trigger] at(*grid, c),
        decreases 5 - x,
    {
        let mut y: usize = 0;
        while y < 5
            invariant
                x < 5,
                y <= 5,
                axis < 3,
                *grid == *old(grid),
                forall|c: Cell| in_cube(c) && precedes(c, x as int, y as int, 0) ==> at(flipped, mirrored(axis as int, c)) == #[trigger] at(*grid, c),
            decreases 5 - y,
        {
            let mut z: usize = 0;
            while z < 5
                invariant
                    x < 5,
                    y < 5,
                    z <= 5,
                    axis < 3,
                    *grid == *old(grid),
                    forall|c: Cell| in_cube(c) && precedes(c, x as int, y as int, z as int) ==> at(flipped, mirrored(axis as int, c)) == #[trigger] at(*grid, c),
                decreases 5 - z,
            {
                if axis == 0 {
                    flipped[4 - x][y][z] = grid[x][y][z];
                } else if axis == 1 {
                    flipped[x][4 - y][z] = grid[x][y][z];
                } else {
                    flipped[x][y][4 - z] = grid[x][y][z];
                }
                z += 1;
            }
            y += 1;
        }
        x += 1;
    }
    let ghost before = *grid;
    copy_grid(&flipped, grid);
    proof {
        let t = reflection(axis as int);
        assert forall|c: Cell| in_cube(c) implies #[trigger] at(*grid, c) == at(before, source_cell(t, c)) by {
            let s = source_cell(t, c);
            assert(in_cube(s));
            assert(mirrored(axis as int, s) == c);
            assert(at(flipped, mirrored(axis as int, s)) == at(before, s));
        }
        lemma_moved_grid(before, *grid, t);
    }
}

/// The weight of bit `k`, as the machine computes it by shifting.
pub proof fn lemma_shift_is_weight(k: u128)
    requires
        k < 128,
    ensures
        (1u128 << k) == bit_weight(k as int),
    decreases k,
{
    if k == 0 {
        assert((1u128 << 0u128) == 1) by (bit_vector);
    } else {
        let j = (k - 1) as u128;
        lemma_shift_is_weight(j);
        assert((1u128 << j) < 0x8000_0000_0000_0000_0000_0000_0000_0000u128 || j == 127) by (bit_vector)
            requires
                j < 128,
        ;
        assert((1u128 << k) == 2 * (1u128 << j)) by (bit_vector)
            requires
                k == j + 1,
                k < 128,
        ;
    }
}

/// The encoding of the grid's pattern: bit `25x + 5y + z` is set exactly
/// when the entry at `[x][y][z]` is `true`.
pub fn calculate_hash(grid: &Grid) -> (hash: u128)
    ensures
        hash == pattern_bits(cells(*grid)),
{
    let mut hash: u128 = 0;
    let mut bit_pos: u128 = 0;
    let mut x: usize = 0;
    while x < 5
        invariant
            x <= 5,
            bit_pos == 25 * x,
            hash == pattern_bits_below(cells(*grid), bit_pos as int),
        decreases 5 - x,
    {
        let mut y: usize = 0;
        while y < 5
            invariant
                x < 5,
                y <= 5,
                bit_pos == 25 * x + 5 * y,
                hash == pattern_bits_below(cells(*grid), bit_pos as int),
            decreases 5 - y,
        {
            let mut z: usize = 0;
            while z < 5
                invariant
                    x < 5,
                    y < 5,
                    z <= 5,
                    bit_pos == 25 * x + 5 * y + z,
                    hash == pattern_bits_below(cells(*grid), bit_pos as int),
                decreases 5 - z,
            {
                proof {
                    lemma_shift_is_weight(bit_pos);
                    lemma_pattern_bits_bound(cells(*grid), bit_pos as int);
                    lemma_bit_weight(bit_pos as int);
                    lemma_shift_is_weight((bit_pos + 1) as u128);
                    assert(cell_at(bit_pos as int) == (x as int, y as int, z as int));
                    let h = hash;
                    let k = bit_pos;
                    assert(h | (1u128 << k) == h + (1u128 << k)) by (bit_vector)
                        requires
                            k < 127,
                            h < (1u128 << k),
                    ;
                }
                if grid[x][y][z] {
                    hash |= 1 << bit_pos;
                }
                bit_pos += 1;
                z += 1;
            }
            y += 1;
        }
        x += 1;
    }
    hash
}

} // verus!
