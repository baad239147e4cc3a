//! The mathematical model of an occupancy pattern: a set of cells of the
//! 5×5×5 cube, the 48 symmetries of the cube acting on such sets, the
//! 125-bit encoding of a pattern, and the canonical fingerprint, which is the
//! least encoding over the whole orbit of a pattern.

use vstd::prelude::*;

verus! {

/// A cell of the voxel space, as its three coordinates.
pub type Cell = (int, int, int);

/// Whether `c` lies inside the cube.
pub open spec fn in_cube(c: Cell) -> bool {
    0 <= c.0 < 5 && 0 <= c.1 < 5 && 0 <= c.2 < 5
}

/// The set of all 125 cells.
pub open spec fn cube() -> Set<Cell> {
    Set::new(|c: Cell| in_cube(c))
}

/// A symmetry of the cube, described by where each coordinate of a
/// transformed cell is read from: coordinate `x` of the source cell is
/// coordinate number `px` of the target cell, mirrored when `fx` is set, and
/// likewise for `y` and `z`.
pub ghost struct Symmetry {
    pub px: int,
    pub py: int,
    pub pz: int,
    pub fx: bool,
    pub fy: bool,
    pub fz: bool,
}

/// A symmetry reads the three source coordinates from three distinct axes.
pub open spec fn is_symmetry(t: Symmetry) -> bool {
    &&& 0 <= t.px < 3
    &&& 0 <= t.py < 3
    &&& 0 <= t.pz < 3
    &&& t.px != t.py
    &&& t.py != t.pz
    &&& t.px != t.pz
}

/// Coordinate number `axis` of a cell.
pub open spec fn coord(c: Cell, axis: int) -> int {
    if axis == 0 {
        c.0
    } else if axis == 1 {
        c.1
    } else {
        c.2
    }
}

/// A coordinate, mirrored across the middle of the cube when `flip` is set.
pub open spec fn mirror(v: int, flip: bool) -> int {
    if flip {
        4 - v
    } else {
        v
    }
}

/// The cell of a pattern that a symmetry moves onto `c`.
pub open spec fn source_cell(t: Symmetry, c: Cell) -> Cell {
    (
        mirror(coord(c, t.px), t.fx),
        mirror(coord(c, t.py), t.fy),
        mirror(coord(c, t.pz), t.fz),
    )
}

/// The image of a pattern under a symmetry. Cells outside the cube are dropped.
pub open spec fn transform(t: Symmetry, p: Set<Cell>) -> Set<Cell> {
    Set::new(|c: Cell| in_cube(c) && p.contains(source_cell(t, c)))
}

/// The axis that source coordinate number `axis` is read from.
pub open spec fn source_axis(t: Symmetry, axis: int) -> int {
    if axis == 0 {
        t.px
    } else if axis == 1 {
        t.py
    } else {
        t.pz
    }
}

/// Whether source coordinate number `axis` is mirrored.
pub open spec fn source_flip(t: Symmetry, axis: int) -> bool {
    if axis == 0 {
        t.fx
    } else if axis == 1 {
        t.fy
    } else {
        t.fz
    }
}

/// The symmetry that leaves every pattern in place.
pub open spec fn identity() -> Symmetry {
    Symmetry { px: 0, py: 1, pz: 2, fx: false, fy: false, fz: false }
}

/// The symmetry that applies `t` first and `s` after it.
pub open spec fn compose(s: Symmetry, t: Symmetry) -> Symmetry {
    Symmetry {
        px: source_axis(s, t.px),
        py: source_axis(s, t.py),
        pz: source_axis(s, t.pz),
        fx: source_flip(s, t.px) != t.fx,
        fy: source_flip(s, t.py) != t.fy,
        fz: source_flip(s, t.pz) != t.fz,
    }
}

/// The source coordinate that is read from `axis`.
pub open spec fn axis_source(t: Symmetry, axis: int) -> int {
    if t.px == axis {
        0
    } else if t.py == axis {
        1
    } else {
        2
    }
}

/// The symmetry that undoes `t`.
pub open spec fn inverse(t: Symmetry) -> Symmetry {
    Symmetry {
        px: axis_source(t, 0),
        py: axis_source(t, 1),
        pz: axis_source(t, 2),
        fx: source_flip(t, axis_source(t, 0)),
        fy: source_flip(t, axis_source(t, 1)),
        fz: source_flip(t, axis_source(t, 2)),
    }
}

/// The quarter turn about `axis` (0, 1 or 2).
pub open spec fn rotation(axis: int) -> Symmetry {
    if axis == 0 {
        Symmetry { px: 0, py: 2, pz: 1, fx: false, fy: true, fz: false }
    } else if axis == 1 {
        Symmetry { px: 2, py: 1, pz: 0, fx: true, fy: false, fz: false }
    } else {
        Symmetry { px: 1, py: 0, pz: 2, fx: true, fy: false, fz: false }
    }
}

/// The reflection that mirrors coordinate number `axis` (0, 1 or 2).
pub open spec fn reflection(axis: int) -> Symmetry {
    Symmetry { px: 0, py: 1, pz: 2, fx: axis == 0, fy: axis == 1, fz: axis == 2 }
}

/// The symmetry that sends the cell `(x, y, z)` to the cell whose
/// coordinates are numbers `i`, `j` and `k` of `(x, y, z)`.
pub open spec fn axis_permutation(i: int, j: int, k: int) -> Symmetry {
    Symmetry {
        px: if i == 0 { 0 } else if j == 0 { 1 } else { 2 },
        py: if i == 1 { 0 } else if j == 1 { 1 } else { 2 },
        pz: if i == 2 { 0 } else if j == 2 { 1 } else { 2 },
        fx: false,
        fy: false,
        fz: false,
    }
}

/// The 48 symmetries, numbered: the number's quotient by 8 picks one of the
/// six ways to order the axes, its three low bits say which coordinates are
/// mirrored.
pub open spec fn symmetry(i: int) -> Symmetry {
    let q = i / 8;
    let r = i % 8;
    Symmetry {
        px: if q < 2 { 0 } else if q < 4 { 1 } else { 2 },
        py: if q == 2 || q == 4 { 0 } else if q == 0 || q == 5 { 1 } else { 2 },
        pz: if q == 3 || q == 5 { 0 } else if q == 1 || q == 4 { 1 } else { 2 },
        fx: r % 2 == 1,
        fy: (r / 2) % 2 == 1,
        fz: r / 4 == 1,
    }
}

/// The number under which `symmetry` lists `t`.
pub open spec fn symmetry_index(t: Symmetry) -> int {
    let q = if t.px == 0 {
        if t.py == 1 { 0int } else { 1int }
    } else if t.px == 1 {
        if t.py == 0 { 2int } else { 3int }
    } else {
        if t.py == 0 { 4int } else { 5int }
    };
    8 * q + (if t.fx { 1int } else { 0int }) + (if t.fy { 2int } else { 0int }) + (if t.fz { 4int } else { 0int })
}

/// The cell that bit number `b` of an encoding stands for.
pub open spec fn cell_at(b: int) -> Cell {
    (b / 25, (b / 5) % 5, b % 5)
}

/// The bit that stands for cell `c`.
pub open spec fn bit_index(c: Cell) -> int {
    c.0 * 25 + c.1 * 5 + c.2
}

/// Two to the power `b`.
pub open spec fn bit_weight(b: int) -> int
    decreases b,
{
    if b <= 0 {
        1
    } else {
        2 * bit_weight(b - 1)
    }
}

/// The encoding of a pattern, restricted to the bits below `n`.
pub open spec fn pattern_bits_below(p: Set<Cell>, n: int) -> int
    decreases n,
{
    if n <= 0 {
        0
    } else {
        pattern_bits_below(p, n - 1) + if p.contains(cell_at(n - 1)) {
            bit_weight(n - 1)
        } else {
            0
        }
    }
}

/// The encoding of a pattern: bit `25x + 5y + z` is set exactly when the
/// cell `(x, y, z)` belongs to the pattern.
pub open spec fn pattern_bits(p: Set<Cell>) -> int {
    pattern_bits_below(p, 125)
}

/// The encoding of the image of `p` under symmetry number `i`.
pub open spec fn orbit_bits(p: Set<Cell>, i: int) -> int {
    pattern_bits(transform(symmetry(i), p))
}

/// The least encoding among the images of `p` under the first `n` symmetries.
pub open spec fn least_orbit_bits(p: Set<Cell>, n: int) -> int
    decreases n,
{
    if n <= 1 {
        orbit_bits(p, 0)
    } else {
        let rest = least_orbit_bits(p, n - 1);
        let last = orbit_bits(p, n - 1);
        if last < rest {
            last
        } else {
            rest
        }
    }
}

/// The canonical fingerprint of a pattern: the least encoding among its
/// images under all 48 symmetries of the cube.
pub open spec fn fingerprint(p: Set<Cell>) -> int {
    least_orbit_bits(p, 48)
}

/// A symmetry maps the cube onto itself.
pub proof fn lemma_source_in_cube(t: Symmetry, c: Cell)
    requires
        is_symmetry(t),
        in_cube(c),
    ensures
        in_cube(source_cell(t, c)),
{
}

/// Symmetries are closed under composition.
pub proof fn lemma_compose_is_symmetry(s: Symmetry, t: Symmetry)
    requires
        is_symmetry(s),
        is_symmetry(t),
    ensures
        is_symmetry(compose(s, t)),
{
}

/// Transforming by `t` and then by `s` is transforming by `compose(s, t)`.
pub proof fn lemma_transform_compose(s: Symmetry, t: Symmetry, p: Set<Cell>)
    requires
        is_symmetry(s),
        is_symmetry(t),
    ensures
        transform(s, transform(t, p)) == transform(compose(s, t), p),
{
    let u = compose(s, t);
    assert forall|c: Cell| transform(s, transform(t, p)).contains(c) == transform(u, p).contains(c) by {
        if in_cube(c) {
            lemma_source_in_cube(s, c);
            assert(source_cell(t, source_cell(s, c)) == source_cell(u, c));
        }
    }
    assert(transform(s, transform(t, p)) =~= transform(u, p));
}

/// The inverse of a symmetry is a symmetry, and composing any symmetry `s`
/// with it and then with `t` again gives back `s`.
pub proof fn lemma_inverse(s: Symmetry, t: Symmetry)
    requires
        is_symmetry(s),
        is_symmetry(t),
    ensures
        is_symmetry(inverse(t)),
        compose(compose(s, inverse(t)), t) == s,
{
}

/// Every symmetry is listed by `symmetry`, under the number `symmetry_index`.
pub proof fn lemma_symmetry_listed(t: Symmetry)
    requires
        is_symmetry(t),
    ensures
        0 <= symmetry_index(t) < 48,
        symmetry(symmetry_index(t)) == t,
{
}

/// Every entry of the list is a symmetry.
pub proof fn lemma_listed_is_symmetry(i: int)
    requires
        0 <= i < 48,
    ensures
        is_symmetry(symmetry(i)),
        symmetry_index(symmetry(i)) == i,
{
}

/// The least encoding over the first `n` symmetries is the encoding of one of them.
pub proof fn lemma_least_attained(p: Set<Cell>, n: int) -> (j: int)
    requires
        1 <= n,
    ensures
        0 <= j < n,
        least_orbit_bits(p, n) == orbit_bits(p, j),
    decreases n,
{
    if n <= 1 {
        0
    } else if orbit_bits(p, n - 1) < least_orbit_bits(p, n - 1) {
        n - 1
    } else {
        lemma_least_attained(p, n - 1)
    }
}

/// The least encoding over the first `n` symmetries is below each of them.
pub proof fn lemma_least_bound(p: Set<Cell>, n: int, j: int)
    requires
        0 <= j < n,
    ensures
        least_orbit_bits(p, n) <= orbit_bits(p, j),
    decreases n,
{
    if n > 1 && j < n - 1 {
        lemma_least_bound(p, n - 1, j);
    }
}

/// The fingerprint of a pattern is the encoding of one of its images.
pub proof fn fingerprint_attained(p: Set<Cell>) -> (t: Symmetry)
    ensures
        is_symmetry(t),
        fingerprint(p) == pattern_bits(transform(t, p)),
{
    let j = lemma_least_attained(p, 48);
    lemma_listed_is_symmetry(j);
    symmetry(j)
}

/// No image of a pattern has an encoding below the pattern's fingerprint.
pub proof fn fingerprint_least(p: Set<Cell>, t: Symmetry)
    requires
        is_symmetry(t),
    ensures
        fingerprint(p) <= pattern_bits(transform(t, p)),
{
    lemma_symmetry_listed(t);
    lemma_least_bound(p, 48, symmetry_index(t));
}

/// Symmetry invariance: a pattern and each of its images under the 48
/// symmetries of the cube have the same fingerprint.
pub proof fn fingerprint_invariant(p: Set<Cell>, t: Symmetry)
    requires
        is_symmetry(t),
    ensures
        fingerprint(transform(t, p)) == fingerprint(p),
{
    let q = transform(t, p);
    let s = fingerprint_attained(p);
    let u = compose(s, inverse(t));
    lemma_inverse(s, t);
    lemma_compose_is_symmetry(s, inverse(t));
    lemma_transform_compose(u, t, p);
    fingerprint_least(q, u);
    let r = fingerprint_attained(q);
    lemma_compose_is_symmetry(r, t);
    lemma_transform_compose(r, t, p);
    fingerprint_least(p, compose(r, t));
}

/// The weight of a bit is positive and doubles from one bit to the next.
pub proof fn lemma_bit_weight(b: int)
    requires
        0 <= b,
    ensures
        bit_weight(b) >= 1,
        bit_weight(b + 1) == 2 * bit_weight(b),
    decreases b,
{
    if b > 0 {
        lemma_bit_weight(b - 1);
    }
}

/// An encoding restricted to the bits below `n` is less than two to the `n`.
pub proof fn lemma_pattern_bits_bound(p: Set<Cell>, n: int)
    requires
        0 <= n,
    ensures
        0 <= pattern_bits_below(p, n) < bit_weight(n),
    decreases n,
{
    if n > 0 {
        lemma_pattern_bits_bound(p, n - 1);
        lemma_bit_weight(n - 1);
    }
}

/// Two patterns whose encodings agree below bit `n` hold the same cells
/// among those that the bits below `n` stand for.
pub proof fn lemma_pattern_bits_decide(p: Set<Cell>, q: Set<Cell>, n: int, b: int)
    requires
        0 <= b < n,
        pattern_bits_below(p, n) == pattern_bits_below(q, n),
    ensures
        p.contains(cell_at(b)) == q.contains(cell_at(b)),
    decreases n,
{
    lemma_pattern_bits_bound(p, n - 1);
    lemma_pattern_bits_bound(q, n - 1);
    lemma_bit_weight(n - 1);
    if b < n - 1 {
        lemma_pattern_bits_decide(p, q, n - 1, b);
    }
}

/// Patterns inside the cube with the same encoding are the same pattern.
pub proof fn pattern_bits_injective(p: Set<Cell>, q: Set<Cell>)
    requires
        p.subset_of(cube()),
        q.subset_of(cube()),
        pattern_bits(p) == pattern_bits(q),
    ensures
        p == q,
{
    assert forall|c: Cell| p.contains(c) == q.contains(c) by {
        if in_cube(c) {
            let b = bit_index(c);
            assert(cell_at(b) == c);
            lemma_pattern_bits_decide(p, q, 125, b);
        } else {
            assert(!cube().contains(c));
        }
    }
    assert(p =~= q);
}

/// Discrimination: two patterns have the same fingerprint only if a
/// symmetry of the cube carries the one onto the part of the other that lies
/// in the cube. Patterns that are not congruent have different fingerprints.
pub proof fn fingerprint_discriminates(p: Set<Cell>, q: Set<Cell>) -> (t: Symmetry)
    requires
        fingerprint(p) == fingerprint(q),
    ensures
        is_symmetry(t),
        transform(t, p) == q.intersect(cube()),
{
    let s1 = fingerprint_attained(p);
    let s2 = fingerprint_attained(q);
    assert(transform(s1, p).subset_of(cube()));
    assert(transform(s2, q).subset_of(cube()));
    pattern_bits_injective(transform(s1, p), transform(s2, q));
    let back = inverse(s2);
    lemma_inverse(identity(), s2);
    lemma_transform_compose(back, s1, p);
    lemma_transform_compose(back, s2, q);
    lemma_compose_is_symmetry(back, s1);
    assert(compose(back, s2) == identity());
    assert(transform(identity(), q) =~= q.intersect(cube()));
    compose(back, s1)
}

} // verus!
