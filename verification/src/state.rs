//! A partial packing of the cube, and the rule that extends it by one brick.

use crate::canon::grid_hash;
use crate::catalog::{block_def, filled, get_block_def, in_catalog, lemma_catalog_dims, lemma_catalog_distinct, lemma_catalog_fills_cube, volume, Block, Dims, Pos};
use crate::cellset::{cell_of, in_halo, CellSet};
use crate::grid::{at, cells, precedes, Grid};
use crate::pattern::{cube, fingerprint, in_cube, Cell};
use vstd::prelude::*;

verus! {

/// A brick in the cube: its dimensions as placed, and the corner of its box
/// with the least coordinates.
#[derive(Debug, Clone, Copy)]
pub struct Placement {
    pub block: Block,
    pub pos: Pos,
}

/// Why a state cannot be extended.
#[derive(Debug, Clone, Copy, PartialEq, Eq, Structural)]
pub enum SearchError {
    /// Every brick of the catalog is placed already.
    CatalogExhausted,
}

/// Whether the box of a placement holds the cell `c`.
pub open spec fn in_box(p: Placement, c: Cell) -> bool {
    &&& p.pos.0 <= c.0 < p.pos.0 + p.block.0
    &&& p.pos.1 <= c.1 < p.pos.1 + p.block.1
    &&& p.pos.2 <= c.2 < p.pos.2 + p.block.2
}

/// The cells of the box of a placement.
pub open spec fn box_of(p: Placement) -> Set<Cell> {
    Set::new(|c: Cell| in_box(p, c))
}

/// Whether `c` shares a face with a cell of the box of a placement.
pub open spec fn beside_box(p: Placement, c: Cell) -> bool {
    ||| in_box(p, (c.0 - 1, c.1, c.2))
    ||| in_box(p, (c.0 + 1, c.1, c.2))
    ||| in_box(p, (c.0, c.1 - 1, c.2))
    ||| in_box(p, (c.0, c.1 + 1, c.2))
    ||| in_box(p, (c.0, c.1, c.2 - 1))
    ||| in_box(p, (c.0, c.1, c.2 + 1))
}

/// The face neighbours of the cells of the box of a placement.
pub open spec fn rim_of(p: Placement) -> Set<Cell> {
    Set::new(|c: Cell| beside_box(p, c))
}

/// Whether the box of a placement lies inside the cube.
pub open spec fn box_in_cube(p: Placement) -> bool {
    &&& 0 <= p.pos.0 && p.pos.0 + p.block.0 <= 5
    &&& 0 <= p.pos.1 && p.pos.1 + p.block.1 <= 5
    &&& 0 <= p.pos.2 && p.pos.2 + p.block.2 <= 5
}

/// Whether one of the placements covers the cell `c`.
pub open spec fn covered(ps: Seq<Placement>, c: Cell) -> bool {
    exists|i: int| 0 <= i < ps.len() && in_box(#[trigger] ps[i], c)
}

/// Whether `c` shares a face with a cell that one of the placements covers.
pub open spec fn touched(ps: Seq<Placement>, c: Cell) -> bool {
    exists|i: int| 0 <= i < ps.len() && beside_box(#[trigger] ps[i], c)
}

/// The cell that seeds the boundary of the empty cube.
pub open spec fn origin() -> Cell {
    (0, 0, 0)
}

/// The mathematical content of a state.
pub ghost struct StateView {
    /// The bricks placed so far, in the order of placing.
    pub placements: Seq<Placement>,
    /// The cells that no brick covers.
    pub free: Set<Cell>,
    /// The seed cell and the face neighbours of all covered cells.
    pub boundary: Set<Cell>,
}

impl StateView {
    /// The empty cube.
    pub open spec fn initial() -> StateView {
        StateView { placements: Seq::empty(), free: cube(), boundary: set![origin()] }
    }

    /// The number of bricks placed.
    pub open spec fn depth(self) -> int {
        self.placements.len() as int
    }

    /// The state after one more placement.
    pub open spec fn place(self, p: Placement) -> StateView {
        StateView {
            placements: self.placements.push(p),
            free: self.free.difference(box_of(p)),
            boundary: self.boundary.union(rim_of(p)),
        }
    }

    /// Every cell of the box of `p` is free.
    pub open spec fn box_free(self, p: Placement) -> bool {
        forall|c: Cell| #[trigger] in_box(p, c) ==> self.free.contains(c)
    }

    /// The box of `p` holds a cell of the boundary.
    pub open spec fn box_touches(self, p: Placement) -> bool {
        exists|c: Cell| #[trigger] in_box(p, c) && self.boundary.contains(c)
    }

    /// Whether `p` may be placed next: its dimensions are an orientation of
    /// the brick that the catalog names for this depth, its box is free, and,
    /// where that is asked for, its box touches the boundary.
    pub open spec fn legal(self, p: Placement, require_touch: bool) -> bool {
        &&& in_catalog(self.depth(), p.block)
        &&& self.box_free(p)
        &&& require_touch ==> self.box_touches(p)
    }

    /// The placements that may be made next.
    pub open spec fn legal_placements(self, require_touch: bool) -> Set<Placement> {
        Set::new(|p: Placement| self.legal(p, require_touch))
    }

    /// No cell is free.
    pub open spec fn solved(self) -> bool {
        self.free.len() == 0
    }

    /// The invariant of a state: the placements follow the catalog, their
    /// boxes lie in the cube and do not overlap, the free cells are the cells
    /// of the cube that no box covers, and the boundary is the seed cell
    /// together with the face neighbours of the covered cells.
    pub open spec fn well_formed(self) -> bool {
        &&& self.placements.len() <= 17
        &&& forall|i: int|
            0 <= i < self.placements.len() ==> in_catalog(i, (#[trigger] self.placements[i]).block) && box_in_cube(
                self.placements[i],
            )
        &&& forall|i: int, j: int, c: Cell|
            0 <= i < j < self.placements.len() && #[trigger] in_box(self.placements[i], c) ==> !#[trigger] in_box(
                self.placements[j],
                c,
            )
        &&& forall|c: Cell| #[trigger] self.free.contains(c) <==> in_cube(c) && !covered(self.placements, c)
        &&& forall|c: Cell| #[trigger] self.boundary.contains(c) <==> c == origin() || touched(self.placements, c)
        &&& self.free.finite()
        &&& self.free.len() + filled(self.depth()) == 125
    }
}

/// A partial packing: the bricks placed so far, the cells still free, and
/// the cells next to a placed brick.
#[derive(Debug)]
pub struct State {
    placements: Vec<Placement>,
    boundary: CellSet,
    free: CellSet,
}

impl View for State {
    type V = StateView;

    closed spec fn view(&self) -> StateView {
        StateView { placements: self.placements@, free: self.free@, boundary: self.boundary@ }
    }
}

/// The cells of the cube that come before `(x, y, z)` in the walk with `x`
/// outermost.
spec fn cube_before(x: int, y: int, z: int) -> Set<Cell> {
    Set::new(|c: Cell| in_cube(c) && precedes(c, x, y, z))
}

impl Default for State {
    /// The empty cube: nothing placed, all 125 cells free, and the cell
    /// `(0, 0, 0)` as the whole boundary.
    fn default() -> (s: State)
        ensures
            s.wf(),
            s@ == StateView::initial(),
    {
        let mut boundary = CellSet::new();
        boundary.insert(0, 0, 0);
        let mut free = CellSet::new();
        let mut x: i32 = 0;
        while x < 5
            invariant
                0 <= x <= 5,
                free.wf(),
                free@ == cube_before(x as int, 0, 0),
                free@.len() == 25 * x,
            decreases 5 - x,
        {
            let mut y: i32 = 0;
            while y < 5
                invariant
                    0 <= x < 5,
                    0 <= y <= 5,
                    free.wf(),
                    free@ == cube_before(x as int, y as int, 0),
                    free@.len() == 25 * x + 5 * y,
                decreases 5 - y,
            {
                let mut z: i32 = 0;
                while z < 5
                    invariant
                        0 <= x < 5,
                        0 <= y < 5,
                        0 <= z <= 5,
                        free.wf(),
                        free@ == cube_before(x as int, y as int, z as int),
                        free@.len() == 25 * x + 5 * y + z,
                    decreases 5 - z,
                {
                    proof {
                        free.lemma_bounded();
                    }
                    free.insert(x, y, z);
                    assert(free@ =~= cube_before(x as int, y as int, z + 1));
                    z += 1;
                }
                assert(cube_before(x as int, y as int, 5) =~= cube_before(x as int, y + 1, 0));
                y += 1;
            }
            assert(cube_before(x as int, 5, 0) =~= cube_before(x + 1, 0, 0));
            x += 1;
        }
        let s = State { placements: Vec::new(), boundary, free };
        proof {
            assert(cube_before(0, 0, 0) =~= Set::<Cell>::empty());
            assert(cube_before(5, 0, 0) =~= cube());
            assert(s@.boundary =~= set![origin()]);
            assert(s@.placements =~= Seq::<Placement>::empty());
            free.lemma_bounded();
        }
        s
    }
}

impl Clone for State {
    /// A snapshot of the state that shares nothing with it.
    fn clone(&self) -> (copy: State)
        ensures
            copy@ == self@,
            copy.wf() == self.wf(),
    {
        let mut placements: Vec<Placement> = Vec::new();
        let mut n: usize = 0;
        while n < self.placements.len()
            invariant
                n <= self.placements.len(),
                placements@ == self.placements@.take(n as int),
            decreases self.placements.len() - n,
        {
            placements.push(self.placements[n]);
            assert(placements@ =~= self.placements@.take(n + 1));
            n += 1;
        }
        assert(self.placements@.take(n as int) =~= self.placements@);
        State { placements, boundary: self.boundary.duplicate(), free: self.free.duplicate() }
    }
}

impl State {
    /// The state is stored consistently and its content is well formed.
    pub closed spec fn wf(&self) -> bool {
        &&& self.free.wf()
        &&& self.boundary.wf()
        &&& self@.well_formed()
    }

    /// The content of a valid state is well formed.
    pub proof fn lemma_wf(&self)
        requires
            self.wf(),
        ensures
            self@.well_formed(),
    {
    }

    /// The bricks placed so far, in the order of placing.
    pub fn placements(&self) -> (list: &Vec<Placement>)
        ensures
            list@ == self@.placements,
    {
        &self.placements
    }

    /// The number of cells that are still free.
    pub fn space_left(&self) -> (n: usize)
        requires
            self.wf(),
        ensures
            n == self@.free.len(),
            n == 125 - filled(self@.depth()),
    {
        self.free.len()
    }

    /// Whether the cell `(x, y, z)` is free.
    pub fn is_free(&self, x: i32, y: i32, z: i32) -> (free: bool)
        ensures
            free == self@.free.contains((x as int, y as int, z as int)),
    {
        self.free.contains(x, y, z)
    }

    /// Whether the cell `(x, y, z)` belongs to the boundary.
    pub fn on_boundary(&self, x: i32, y: i32, z: i32) -> (found: bool)
        ensures
            found == self@.boundary.contains((x as int, y as int, z as int)),
    {
        self.boundary.contains(x, y, z)
    }

    /// The canonical fingerprint of the pattern of free cells.
    pub fn hash(&self) -> (h: u128)
        requires
            self.wf(),
        ensures
            h == fingerprint(self@.free),
    {
        let mut grid: Grid = [[[false; 5]; 5]; 5];
        let mut x: usize = 0;
        while x < 5
            invariant
                x <= 5,
                forall|c: Cell| in_cube(c) && precedes(c, x as int, 0, 0) ==> #[trigger] at(grid, c) == self@.free.contains(c),
            decreases 5 - x,
        {
            let mut y: usize = 0;
            while y < 5
                invariant
                    x < 5,
                    y <= 5,
                    forall|c: Cell| in_cube(c) && precedes(c, x as int, y as int, 0) ==> #[trigger] at(grid, c) == self@.free.contains(c),
                decreases 5 - y,
            {
                let mut z: usize = 0;
                while z < 5
                    invariant
                        x < 5,
                        y < 5,
                        z <= 5,
                        forall|c: Cell| in_cube(c) && precedes(c, x as int, y as int, z as int) ==> #[trigger] at(grid, c) == self@.free.contains(c),
                    decreases 5 - z,
                {
                    let ghost prev = grid;
                    grid[x][y][z] = self.free.contains(x as i32, y as i32, z as i32);
                    assert(forall|c: Cell| in_cube(c) && c != (x as int, y as int, z as int) ==> #[trigger] at(grid, c) == at(prev, c));
                    z += 1;
                }
                y += 1;
            }
            x += 1;
        }
        assert(cells(grid) =~= self@.free);
        grid_hash(&grid)
    }
}

/// Whether `c` is a cell of the box of `p` whose offset from the anchor
/// comes before `(dx, dy, dz)` in the walk with `x` outermost.
spec fn in_box_before(p: Placement, dx: int, dy: int, dz: int, c: Cell) -> bool {
    in_box(p, c) && precedes((c.0 - p.pos.0, c.1 - p.pos.1, c.2 - p.pos.2), dx, dy, dz)
}

/// The cells of the box of `p` that the walk reaches before `(dx, dy, dz)`.
spec fn box_before(p: Placement, dx: int, dy: int, dz: int) -> Set<Cell> {
    Set::new(|c: Cell| in_box_before(p, dx, dy, dz, c))
}

/// Whether `c` shares a face with a cell of `box_before`.
spec fn beside_before(p: Placement, dx: int, dy: int, dz: int, c: Cell) -> bool {
    ||| in_box_before(p, dx, dy, dz, (c.0 - 1, c.1, c.2))
    ||| in_box_before(p, dx, dy, dz, (c.0 + 1, c.1, c.2))
    ||| in_box_before(p, dx, dy, dz, (c.0, c.1 - 1, c.2))
    ||| in_box_before(p, dx, dy, dz, (c.0, c.1 + 1, c.2))
    ||| in_box_before(p, dx, dy, dz, (c.0, c.1, c.2 - 1))
    ||| in_box_before(p, dx, dy, dz, (c.0, c.1, c.2 + 1))
}

/// The face neighbours of the cells of `box_before`.
spec fn rim_before(p: Placement, dx: int, dy: int, dz: int) -> Set<Cell> {
    Set::new(|c: Cell| beside_before(p, dx, dy, dz, c))
}

/// Whether `c` shares a face with the cell `d`.
spec fn adjacent(c: Cell, d: Cell) -> bool {
    ||| c == (d.0 - 1, d.1, d.2)
    ||| c == (d.0 + 1, d.1, d.2)
    ||| c == (d.0, d.1 - 1, d.2)
    ||| c == (d.0, d.1 + 1, d.2)
    ||| c == (d.0, d.1, d.2 - 1)
    ||| c == (d.0, d.1, d.2 + 1)
}

proof fn lemma_rim_step(p: Placement, dx: int, dy: int, dz: int, e: Cell)
    requires
        0 <= dx < p.block.0,
        0 <= dy < p.block.1,
        0 <= dz < p.block.2,
    ensures
        beside_before(p, dx, dy, dz + 1, e) == (beside_before(p, dx, dy, dz, e) || adjacent(
            e,
            (p.pos.0 + dx, p.pos.1 + dy, p.pos.2 + dz),
        )),
{
}

proof fn lemma_box_row(p: Placement, dx: int, dy: int, c: Cell)
    ensures
        in_box_before(p, dx, dy, p.block.2 as int, c) == in_box_before(p, dx, dy + 1, 0, c),
{
}

proof fn lemma_box_plane(p: Placement, dx: int, c: Cell)
    ensures
        in_box_before(p, dx, p.block.1 as int, 0, c) == in_box_before(p, dx + 1, 0, 0, c),
{
}

proof fn lemma_box_whole(p: Placement, c: Cell)
    ensures
        in_box_before(p, p.block.0 as int, 0, 0, c) == in_box(p, c),
        !in_box_before(p, 0, 0, 0, c),
{
}

proof fn lemma_rim_row(p: Placement, dx: int, dy: int)
    ensures
        rim_before(p, dx, dy, p.block.2 as int) == rim_before(p, dx, dy + 1, 0),
{
    assert forall|e: Cell| beside_before(p, dx, dy, p.block.2 as int, e) == beside_before(p, dx, dy + 1, 0, e) by {
        lemma_box_row(p, dx, dy, (e.0 - 1, e.1, e.2));
        lemma_box_row(p, dx, dy, (e.0 + 1, e.1, e.2));
        lemma_box_row(p, dx, dy, (e.0, e.1 - 1, e.2));
        lemma_box_row(p, dx, dy, (e.0, e.1 + 1, e.2));
        lemma_box_row(p, dx, dy, (e.0, e.1, e.2 - 1));
        lemma_box_row(p, dx, dy, (e.0, e.1, e.2 + 1));
    }
    assert(rim_before(p, dx, dy, p.block.2 as int) =~= rim_before(p, dx, dy + 1, 0));
}

proof fn lemma_rim_plane(p: Placement, dx: int)
    ensures
        rim_before(p, dx, p.block.1 as int, 0) == rim_before(p, dx + 1, 0, 0),
{
    assert forall|e: Cell| beside_before(p, dx, p.block.1 as int, 0, e) == beside_before(p, dx + 1, 0, 0, e) by {
        lemma_box_plane(p, dx, (e.0 - 1, e.1, e.2));
        lemma_box_plane(p, dx, (e.0 + 1, e.1, e.2));
        lemma_box_plane(p, dx, (e.0, e.1 - 1, e.2));
        lemma_box_plane(p, dx, (e.0, e.1 + 1, e.2));
        lemma_box_plane(p, dx, (e.0, e.1, e.2 - 1));
        lemma_box_plane(p, dx, (e.0, e.1, e.2 + 1));
    }
    assert(rim_before(p, dx, p.block.1 as int, 0) =~= rim_before(p, dx + 1, 0, 0));
}

proof fn lemma_rim_whole(p: Placement)
    ensures
        rim_before(p, p.block.0 as int, 0, 0) == rim_of(p),
        rim_before(p, 0, 0, 0) == Set::<Cell>::empty(),
{
    assert forall|e: Cell| beside_before(p, p.block.0 as int, 0, 0, e) == beside_box(p, e) && !beside_before(p, 0, 0, 0, e) by {
        lemma_box_whole(p, (e.0 - 1, e.1, e.2));
        lemma_box_whole(p, (e.0 + 1, e.1, e.2));
        lemma_box_whole(p, (e.0, e.1 - 1, e.2));
        lemma_box_whole(p, (e.0, e.1 + 1, e.2));
        lemma_box_whole(p, (e.0, e.1, e.2 - 1));
        lemma_box_whole(p, (e.0, e.1, e.2 + 1));
    }
    assert(rim_before(p, p.block.0 as int, 0, 0) =~= rim_of(p));
    assert(rim_before(p, 0, 0, 0) =~= Set::<Cell>::empty());
}

proof fn lemma_rim_grows(p: Placement, dx: int, dy: int, dz: int, before: Set<Cell>, after: Set<Cell>, start: Set<Cell>)
    requires
        0 <= dx < p.block.0,
        0 <= dy < p.block.1,
        0 <= dz < p.block.2,
        before == start.union(rim_before(p, dx, dy, dz)),
        after == ({
            let c: Cell = (p.pos.0 + dx, p.pos.1 + dy, p.pos.2 + dz);
            before.insert((c.0 - 1, c.1, c.2)).insert((c.0 + 1, c.1, c.2)).insert((c.0, c.1 - 1, c.2)).insert(
                (c.0, c.1 + 1, c.2),
            ).insert((c.0, c.1, c.2 - 1)).insert((c.0, c.1, c.2 + 1))
        }),
    ensures
        after == start.union(rim_before(p, dx, dy, dz + 1)),
{
    let c: Cell = (p.pos.0 + dx, p.pos.1 + dy, p.pos.2 + dz);
    assert forall|e: Cell| after.contains(e) == start.union(rim_before(p, dx, dy, dz + 1)).contains(e) by {
        lemma_rim_step(p, dx, dy, dz, e);
        assert(after.contains(e) == (before.contains(e) || adjacent(e, c)));
    }
    assert(after =~= start.union(rim_before(p, dx, dy, dz + 1)));
}

/// The dimensions of a brick of the catalog: one to four cells along each axis.
pub open spec fn small_dims(block: Block) -> bool {
    &&& 1 <= block.0 <= 4
    &&& 1 <= block.1 <= 4
    &&& 1 <= block.2 <= 4
}

/// Takes the cells of a box out of a set that holds them all.
pub fn remove_box(free: &mut CellSet, block: Block, pos: Pos)
    requires
        old(free).wf(),
        small_dims(block),
        forall|c: Cell| #[trigger] in_box(Placement { block, pos }, c) ==> old(free)@.contains(c),
    ensures
        final(free).wf(),
        final(free)@ == old(free)@.difference(box_of(Placement { block, pos })),
        final(free)@.len() == old(free)@.len() - volume(block),
{
    let ghost p = Placement { block, pos };
    let ghost start = free@;
    let (sx, sy, sz) = block;
    let (x, y, z) = pos;
    proof {
        free.lemma_bounded();
        let near: Cell = (x as int, y as int, z as int);
        let far: Cell = (x + sx - 1, y + sy - 1, z + sz - 1);
        assert(in_box(p, near));
        assert(in_box(p, far));
        assert(start.contains(near) && start.contains(far));
        assert(in_halo(near) && in_halo(far));
        assert(start =~= start.difference(box_before(p, 0, 0, 0)));
    }
    let mut dx: i32 = 0;
    while dx < sx
        invariant
            0 <= dx <= sx,
            small_dims(block),
            p == (Placement { block, pos }),
            block == (sx, sy, sz),
            pos == (x, y, z),
            -1 <= x && x + sx <= 6 && -1 <= y && y + sy <= 6 && -1 <= z && z + sz <= 6,
            free.wf(),
            free@ == start.difference(box_before(p, dx as int, 0, 0)),
        decreases sx - dx,
    {
        let mut dy: i32 = 0;
        while dy < sy
            invariant
                0 <= dx < sx,
                0 <= dy <= sy,
                small_dims(block),
                p == (Placement { block, pos }),
                block == (sx, sy, sz),
                pos == (x, y, z),
                -1 <= x && x + sx <= 6 && -1 <= y && y + sy <= 6 && -1 <= z && z + sz <= 6,
                free.wf(),
                free@ == start.difference(box_before(p, dx as int, dy as int, 0)),
            decreases sy - dy,
        {
            let mut dz: i32 = 0;
            while dz < sz
                invariant
                    0 <= dx < sx,
                    0 <= dy < sy,
                    0 <= dz <= sz,
                    small_dims(block),
                    p == (Placement { block, pos }),
                    block == (sx, sy, sz),
                    pos == (x, y, z),
                    -1 <= x && x + sx <= 6 && -1 <= y && y + sy <= 6 && -1 <= z && z + sz <= 6,
                    free.wf(),
                    free@ == start.difference(box_before(p, dx as int, dy as int, dz as int)),
                decreases sz - dz,
            {
                free.remove(x + dx, y + dy, z + dz);
                proof {
                    assert(free@ =~= start.difference(box_before(p, dx as int, dy as int, dz + 1)));
                }
                dz += 1;
            }
            proof {
                assert(box_before(p, dx as int, dy as int, sz as int) =~= box_before(p, dx as int, dy + 1, 0));
            }
            dy += 1;
        }
        proof {
            assert(box_before(p, dx as int, sy as int, 0) =~= box_before(p, dx + 1, 0, 0));
        }
        dx += 1;
    }
    proof {
        assert(box_before(p, sx as int, 0, 0) =~= box_of(p));
        lemma_box_len(p);
        assert(free@.disjoint(box_of(p)));
        vstd::set_lib::lemma_set_disjoint_lens(free@, box_of(p));
        assert(free@ + box_of(p) =~= start);
    }
}

/// Adds the face neighbours of every cell of a box to a set.
pub fn add_rim(boundary: &mut CellSet, block: Block, pos: Pos)
    requires
        old(boundary).wf(),
        small_dims(block),
        box_in_cube(Placement { block, pos }),
    ensures
        final(boundary).wf(),
        final(boundary)@ == old(boundary)@.union(rim_of(Placement { block, pos })),
{
    let ghost p = Placement { block, pos };
    let ghost start = boundary@;
    let (sx, sy, sz) = block;
    let (x, y, z) = pos;
    proof {
        lemma_rim_whole(p);
        assert(start =~= start.union(Set::<Cell>::empty()));
    }
    let mut dx: i32 = 0;
    while dx < sx
        invariant
            0 <= dx <= sx,
            small_dims(block),
            box_in_cube(p),
            p == (Placement { block, pos }),
            block == (sx, sy, sz),
            pos == (x, y, z),
            boundary.wf(),
            boundary@ == start.union(rim_before(p, dx as int, 0, 0)),
        decreases sx - dx,
    {
        let mut dy: i32 = 0;
        while dy < sy
            invariant
                0 <= dx < sx,
                0 <= dy <= sy,
                small_dims(block),
                box_in_cube(p),
                p == (Placement { block, pos }),
                block == (sx, sy, sz),
                pos == (x, y, z),
                boundary.wf(),
                boundary@ == start.union(rim_before(p, dx as int, dy as int, 0)),
            decreases sy - dy,
        {
            let mut dz: i32 = 0;
            while dz < sz
                invariant
                    0 <= dx < sx,
                    0 <= dy < sy,
                    0 <= dz <= sz,
                    small_dims(block),
                    box_in_cube(p),
                    p == (Placement { block, pos }),
                    block == (sx, sy, sz),
                    pos == (x, y, z),
                    boundary.wf(),
                    boundary@ == start.union(rim_before(p, dx as int, dy as int, dz as int)),
                decreases sz - dz,
            {
                let ghost prev = boundary@;
                let ghost c: Cell = (x + dx, y + dy, z + dz);
                boundary.insert(x + dx - 1, y + dy, z + dz);
                boundary.insert(x + dx + 1, y + dy, z + dz);
                boundary.insert(x + dx, y + dy - 1, z + dz);
                boundary.insert(x + dx, y + dy + 1, z + dz);
                boundary.insert(x + dx, y + dy, z + dz - 1);
                boundary.insert(x + dx, y + dy, z + dz + 1);
                proof {
                    lemma_rim_grows(p, dx as int, dy as int, dz as int, prev, boundary@, start);
                }
                dz += 1;
            }
            proof {
                lemma_rim_row(p, dx as int, dy as int);
            }
            dy += 1;
        }
        proof {
            lemma_rim_plane(p, dx as int);
        }
        dx += 1;
    }
    proof {
        lemma_rim_whole(p);
    }
}

/// The cells whose coordinates start at `(x0, y0, z0)` and extend over
/// `sx`, `sy` and `sz` cells.
spec fn cuboid(x0: int, y0: int, z0: int, sx: int, sy: int, sz: int) -> Set<Cell> {
    Set::new(|c: Cell| x0 <= c.0 < x0 + sx && y0 <= c.1 < y0 + sy && z0 <= c.2 < z0 + sz)
}

proof fn lemma_row_len(x0: int, y0: int, z0: int, sz: int)
    requires
        0 <= sz,
    ensures
        cuboid(x0, y0, z0, 1, 1, sz).finite(),
        cuboid(x0, y0, z0, 1, 1, sz).len() == sz,
    decreases sz,
{
    if sz == 0 {
        assert(cuboid(x0, y0, z0, 1, 1, 0) =~= Set::<Cell>::empty());
    } else {
        lemma_row_len(x0, y0, z0, sz - 1);
        assert(cuboid(x0, y0, z0, 1, 1, sz) =~= cuboid(x0, y0, z0, 1, 1, sz - 1).insert((x0, y0, z0 + sz - 1)));
    }
}

proof fn lemma_slab_len(x0: int, y0: int, z0: int, sy: int, sz: int)
    requires
        0 <= sy,
        0 <= sz,
    ensures
        cuboid(x0, y0, z0, 1, sy, sz).finite(),
        cuboid(x0, y0, z0, 1, sy, sz).len() == sy * sz,
    decreases sy,
{
    if sy == 0 {
        assert(cuboid(x0, y0, z0, 1, 0, sz) =~= Set::<Cell>::empty());
        assert(0 * sz == 0) by (nonlinear_arith);
    } else {
        let rest = cuboid(x0, y0, z0, 1, sy - 1, sz);
        let row = cuboid(x0, y0 + sy - 1, z0, 1, 1, sz);
        lemma_slab_len(x0, y0, z0, sy - 1, sz);
        lemma_row_len(x0, y0 + sy - 1, z0, sz);
        assert(rest.disjoint(row));
        vstd::set_lib::lemma_set_disjoint_lens(rest, row);
        assert(cuboid(x0, y0, z0, 1, sy, sz) =~= rest + row);
        assert((sy - 1) * sz + sz == sy * sz) by (nonlinear_arith);
    }
}

proof fn lemma_cuboid_len(x0: int, y0: int, z0: int, sx: int, sy: int, sz: int)
    requires
        0 <= sx,
        0 <= sy,
        0 <= sz,
    ensures
        cuboid(x0, y0, z0, sx, sy, sz).finite(),
        cuboid(x0, y0, z0, sx, sy, sz).len() == sx * sy * sz,
    decreases sx,
{
    if sx == 0 {
        assert(cuboid(x0, y0, z0, 0, sy, sz) =~= Set::<Cell>::empty());
        assert(0 * sy * sz == 0) by (nonlinear_arith);
    } else {
        let rest = cuboid(x0, y0, z0, sx - 1, sy, sz);
        let slab = cuboid(x0 + sx - 1, y0, z0, 1, sy, sz);
        lemma_cuboid_len(x0, y0, z0, sx - 1, sy, sz);
        lemma_slab_len(x0 + sx - 1, y0, z0, sy, sz);
        assert(rest.disjoint(slab));
        vstd::set_lib::lemma_set_disjoint_lens(rest, slab);
        assert(cuboid(x0, y0, z0, sx, sy, sz) =~= rest + slab);
        assert((sx - 1) * sy * sz + sy * sz == sx * sy * sz) by (nonlinear_arith);
    }
}

/// The box of a brick holds as many cells as the volume of the brick.
pub proof fn lemma_box_len(p: Placement)
    requires
        0 <= p.block.0,
        0 <= p.block.1,
        0 <= p.block.2,
    ensures
        box_of(p).finite(),
        box_of(p).len() == volume(p.block),
{
    lemma_cuboid_len(
        p.pos.0 as int,
        p.pos.1 as int,
        p.pos.2 as int,
        p.block.0 as int,
        p.block.1 as int,
        p.block.2 as int,
    );
    assert(box_of(p) =~= cuboid(
        p.pos.0 as int,
        p.pos.1 as int,
        p.pos.2 as int,
        p.block.0 as int,
        p.block.1 as int,
        p.block.2 as int,
    ));
}

/// Volume conservation: a legal placement takes exactly the cells of its
/// box from the free cells, as many as the volume of the brick, and leaves
/// a well-formed state: the boxes and the free cells still make up the cube
/// and nothing overlaps.
pub proof fn lemma_place_well_formed(v: StateView, p: Placement, require_touch: bool)
    requires
        v.well_formed(),
        v.legal(p, require_touch),
    ensures
        v.place(p).well_formed(),
        v.place(p).free.len() == v.free.len() - volume(p.block),
        box_in_cube(p),
        v.depth() < 17,
{
    let w = v.place(p);
    let d = v.depth();
    lemma_catalog_dims(d, p.block);
    lemma_box_len(p);
    assert(w.free.disjoint(box_of(p)));
    vstd::set_lib::lemma_set_disjoint_lens(w.free, box_of(p));
    assert(w.free + box_of(p) =~= v.free);
    assert(in_box(p, (p.pos.0 as int, p.pos.1 as int, p.pos.2 as int)));
    assert(in_box(p, (p.pos.0 + p.block.0 - 1, p.pos.1 + p.block.1 - 1, p.pos.2 + p.block.2 - 1)));
    assert(box_in_cube(p));
    assert forall|i: int| 0 <= i < w.placements.len() implies in_catalog(i, (#[trigger] w.placements[i]).block) && box_in_cube(
        w.placements[i],
    ) by {
        if i < d {
            assert(w.placements[i] == v.placements[i]);
        }
    }
    assert forall|c: Cell| covered(w.placements, c) == (covered(v.placements, c) || in_box(p, c)) by {
        if covered(w.placements, c) {
            let i = choose|i: int| 0 <= i < w.placements.len() && in_box(#[trigger] w.placements[i], c);
            if i < d {
                assert(in_box(v.placements[i], c));
            }
        }
        if covered(v.placements, c) {
            let i = choose|i: int| 0 <= i < v.placements.len() && in_box(#[trigger] v.placements[i], c);
            assert(in_box(w.placements[i], c));
        }
        if in_box(p, c) {
            assert(in_box(w.placements[d], c));
        }
    }
    assert forall|c: Cell| touched(w.placements, c) == (touched(v.placements, c) || beside_box(p, c)) by {
        if touched(w.placements, c) {
            let i = choose|i: int| 0 <= i < w.placements.len() && beside_box(#[trigger] w.placements[i], c);
            if i < d {
                assert(beside_box(v.placements[i], c));
            }
        }
        if touched(v.placements, c) {
            let i = choose|i: int| 0 <= i < v.placements.len() && beside_box(#[trigger] v.placements[i], c);
            assert(beside_box(w.placements[i], c));
        }
        if beside_box(p, c) {
            assert(beside_box(w.placements[d], c));
        }
    }
    assert forall|i: int, j: int, c: Cell|
        0 <= i < j < w.placements.len() && #[trigger] in_box(w.placements[i], c) implies !#[trigger] in_box(
        w.placements[j],
        c,
    ) by {
        assert(w.placements[i] == v.placements[i]);
        if j < d {
            assert(w.placements[j] == v.placements[j]);
        } else {
            assert(covered(v.placements, c));
            assert(!v.free.contains(c));
        }
    }
}

impl State {
    /// The state with one more brick: the parent's placements and the new
    /// one, the parent's free cells without the box, and the parent's
    /// boundary with the face neighbours of the box. The number of free
    /// cells goes down by the volume of the brick.
    pub fn place(&self, block: Block, pos: Pos) -> (child: State)
        requires
            self.wf(),
            self@.legal(Placement { block, pos }, false),
        ensures
            child.wf(),
            child@ == self@.place(Placement { block, pos }),
            child@.free.len() == self@.free.len() - volume(block),
    {
        let ghost p = Placement { block, pos };
        proof {
            lemma_catalog_dims(self@.depth(), block);
            assert(in_box(p, (pos.0 as int, pos.1 as int, pos.2 as int)));
            assert(in_box(p, (pos.0 + block.0 - 1, pos.1 + block.1 - 1, pos.2 + block.2 - 1)));
        }
        let mut s = self.clone();
        s.placements.push(Placement { block, pos });
        remove_box(&mut s.free, block, pos);
        add_rim(&mut s.boundary, block, pos);
        proof {
            lemma_place_well_formed(self@, p, false);
        }
        s
    }

    /// Whether the box of a brick at `pos` is free and, where that is asked
    /// for, touches the boundary.
    pub fn fits(&self, block: Block, pos: Pos, require_touch: bool) -> (ok: bool)
        requires
            self.wf(),
            block.0 >= 1,
            block.1 >= 1,
            block.2 >= 1,
        ensures
            ok == (self@.box_free(Placement { block, pos }) && (require_touch ==> self@.box_touches(
                Placement { block, pos },
            ))),
    {
        let ghost p = Placement { block, pos };
        let (sx, sy, sz) = block;
        let (x, y, z) = pos;
        if x < 0 || y < 0 || z < 0 || x > 4 || y > 4 || z > 4 {
            assert(in_box(p, (x as int, y as int, z as int)));
            return false;
        }
        if sx > 5 - x || sy > 5 - y || sz > 5 - z {
            assert(in_box(p, (x + sx - 1, y + sy - 1, z + sz - 1)));
            return false;
        }
        let mut dx: i32 = 0;
        while dx < sx
            invariant
                0 <= dx <= sx,
                p == (Placement { block, pos }),
                block == (sx, sy, sz),
                pos == (x, y, z),
                0 <= x && x + sx <= 5 && 0 <= y && y + sy <= 5 && 0 <= z && z + sz <= 5,
                sx >= 1 && sy >= 1 && sz >= 1,
                forall|c: Cell| box_before(p, dx as int, 0, 0).contains(c) ==> self@.free.contains(c),
            decreases sx - dx,
        {
            let mut dy: i32 = 0;
            while dy < sy
                invariant
                    0 <= dx < sx,
                    0 <= dy <= sy,
                    p == (Placement { block, pos }),
                    block == (sx, sy, sz),
                    pos == (x, y, z),
                    0 <= x && x + sx <= 5 && 0 <= y && y + sy <= 5 && 0 <= z && z + sz <= 5,
                    sx >= 1 && sy >= 1 && sz >= 1,
                    forall|c: Cell| box_before(p, dx as int, dy as int, 0).contains(c) ==> self@.free.contains(c),
                decreases sy - dy,
            {
                let mut dz: i32 = 0;
                while dz < sz
                    invariant
                        0 <= dx < sx,
                        0 <= dy < sy,
                        0 <= dz <= sz,
                        p == (Placement { block, pos }),
                        block == (sx, sy, sz),
                        pos == (x, y, z),
                        0 <= x && x + sx <= 5 && 0 <= y && y + sy <= 5 && 0 <= z && z + sz <= 5,
                        sx >= 1 && sy >= 1 && sz >= 1,
                        forall|c: Cell| box_before(p, dx as int, dy as int, dz as int).contains(c) ==> self@.free.contains(c),
                    decreases sz - dz,
                {
                    if !self.free.contains(x + dx, y + dy, z + dz) {
                        assert(in_box(p, (x + dx, y + dy, z + dz)));
                        return false;
                    }
                    dz += 1;
                }
                dy += 1;
            }
            dx += 1;
        }
        proof {
            assert forall|c: Cell| #[trigger] in_box(p, c) implies self@.free.contains(c) by {
                assert(box_before(p, sx as int, 0, 0).contains(c));
            }
        }
        if !require_touch {
            return true;
        }
        let mut dx: i32 = 0;
        while dx < sx
            invariant
                0 <= dx <= sx,
                p == (Placement { block, pos }),
                block == (sx, sy, sz),
                pos == (x, y, z),
                0 <= x && x + sx <= 5 && 0 <= y && y + sy <= 5 && 0 <= z && z + sz <= 5,
                sx >= 1 && sy >= 1 && sz >= 1,
                self@.box_free(p),
                require_touch,
                forall|c: Cell| box_before(p, dx as int, 0, 0).contains(c) ==> !self@.boundary.contains(c),
            decreases sx - dx,
        {
            let mut dy: i32 = 0;
            while dy < sy
                invariant
                    0 <= dx < sx,
                    0 <= dy <= sy,
                    p == (Placement { block, pos }),
                    block == (sx, sy, sz),
                    pos == (x, y, z),
                    0 <= x && x + sx <= 5 && 0 <= y && y + sy <= 5 && 0 <= z && z + sz <= 5,
                    sx >= 1 && sy >= 1 && sz >= 1,
                    self@.box_free(p),
                    require_touch,
                    forall|c: Cell| box_before(p, dx as int, dy as int, 0).contains(c) ==> !self@.boundary.contains(c),
                decreases sy - dy,
            {
                let mut dz: i32 = 0;
                while dz < sz
                    invariant
                        0 <= dx < sx,
                        0 <= dy < sy,
                        0 <= dz <= sz,
                        p == (Placement { block, pos }),
                        block == (sx, sy, sz),
                        pos == (x, y, z),
                        0 <= x && x + sx <= 5 && 0 <= y && y + sy <= 5 && 0 <= z && z + sz <= 5,
                        sx >= 1 && sy >= 1 && sz >= 1,
                        self@.box_free(p),
                        require_touch,
                        forall|c: Cell| box_before(p, dx as int, dy as int, dz as int).contains(c) ==> !self@.boundary.contains(c),
                    decreases sz - dz,
                {
                    if self.boundary.contains(x + dx, y + dy, z + dz) {
                        assert(in_box(p, (x + dx, y + dy, z + dz)));
                        return true;
                    }
                    dz += 1;
                }
                dy += 1;
            }
            dx += 1;
        }
        proof {
            assert forall|c: Cell| #[trigger] in_box(p, c) implies !self@.boundary.contains(c) by {
                assert(box_before(p, sx as int, 0, 0).contains(c));
            }
        }
        false
    }
}

/// Whether `kid` is `parent` with one more brick, legally placed.
pub open spec fn is_child(parent: StateView, kid: StateView, require_touch: bool) -> bool {
    &&& kid.placements.len() > 0
    &&& parent.legal(kid.placements.last(), require_touch)
    &&& kid == parent.place(kid.placements.last())
    &&& kid.free.len() == parent.free.len() - volume(kid.placements.last().block)
}

/// Whether the generator has tried `p` by the time it stands at orientation
/// number `vi` and anchor number `ai`.
spec fn visited(p: Placement, def: Seq<Dims>, anchors: Seq<Pos>, vi: int, ai: int) -> bool {
    exists|v: int, a: int|
        #![trigger def[v], anchors[a]]
        0 <= v < def.len() && 0 <= a < anchors.len() && (v < vi || (v == vi && a < ai)) && p.block == def[v] && p.pos
            == anchors[a]
}

impl State {
    /// The successor generator: one child for every legal placement of the
    /// brick that the catalog names for this depth, in no particular order.
    /// Every child is the parent with that one placement added, and its
    /// number of free cells is the parent's less the volume of the brick.
    /// With `require_touch`, a placement is legal only if its box holds a
    /// cell of the boundary. Fails when the catalog has no brick left.
    pub fn successors(&self, require_touch: bool) -> (r: Result<Vec<State>, SearchError>)
        requires
            self.wf(),
        ensures
            match r {
                Ok(kids) => {
                    &&& self@.depth() < 17
                    &&& kids.len() <= 750
                    &&& self@.legal_placements(require_touch).finite()
                    &&& kids.len() == self@.legal_placements(require_touch).len()
                    &&& forall|i: int|
                        0 <= i < kids.len() ==> (#[trigger] kids[i]).wf() && is_child(self@, kids[i]@, require_touch)
                    &&& forall|p: Placement| #[trigger]
                        self@.legal(p, require_touch) ==> exists|i: int|
                            0 <= i < kids.len() && (#[trigger] kids[i])@ == self@.place(p)
                    &&& forall|i: int, j: int|
                        0 <= i < j < kids.len() ==> (#[trigger] kids[i])@.placements.last() != (
                        #[trigger] kids[j])@.placements.last()
                },
                Err(e) => e == SearchError::CatalogExhausted && self@.depth() >= 17,
            },
    {
        let def = match get_block_def(self.placements.len()) {
            Some(def) => def,
            None => {
                return Err(SearchError::CatalogExhausted);
            },
        };
        let anchors = self.free.cells();
        let ghost depth = self@.depth();
        let ghost count = anchors.len() as int;
        let mut found: Vec<State> = Vec::new();
        let mut vi: usize = 0;
        proof {
            assert(0 * count == 0) by (nonlinear_arith);
        }
        while vi < def.len()
            invariant
                vi <= def.len(),
                self.wf(),
                depth == self@.depth(),
                count == anchors.len(),
                block_def(depth) == Some(def@),
                anchors.len() == self@.free.len(),
                forall|i: int| 0 <= i < anchors.len() ==> self@.free.contains(cell_of(#[trigger] anchors[i])),
                forall|i: int, j: int| 0 <= i < j < anchors.len() ==> anchors[i] != anchors[j],
                found.len() <= vi * count,
                forall|i: int|
                    0 <= i < found.len() ==> (#[trigger] found[i]).wf() && is_child(self@, found[i]@, require_touch)
                        && visited(found[i]@.placements.last(), def@, anchors@, vi as int, 0),
                forall|p: Placement| #[trigger]
                    self@.legal(p, require_touch) && visited(p, def@, anchors@, vi as int, 0) ==> exists|i: int|
                        0 <= i < found.len() && (#[trigger] found[i])@ == self@.place(p),
                forall|i: int, j: int|
                    0 <= i < j < found.len() ==> (#[trigger] found[i])@.placements.last() != (
                    #[trigger] found[j])@.placements.last(),
            decreases def.len() - vi,
        {
            let (sx, sy, sz) = def[vi];
            proof {
                assert(def@.contains(def@[vi as int]));
                lemma_catalog_dims(depth, (sx, sy, sz));
            }
            let mut ai: usize = 0;
            while ai < anchors.len()
                invariant
                    vi < def.len(),
                    ai <= anchors.len(),
                    self.wf(),
                    depth == self@.depth(),
                    count == anchors.len(),
                    block_def(depth) == Some(def@),
                    def[vi as int] == (sx, sy, sz),
                    in_catalog(depth, (sx, sy, sz)),
                    small_dims((sx, sy, sz)),
                    anchors.len() == self@.free.len(),
                    forall|i: int| 0 <= i < anchors.len() ==> self@.free.contains(cell_of(#[trigger] anchors[i])),
                    forall|i: int, j: int| 0 <= i < j < anchors.len() ==> anchors[i] != anchors[j],
                    found.len() <= vi * count + ai,
                    forall|i: int|
                        0 <= i < found.len() ==> (#[trigger] found[i]).wf() && is_child(
                            self@,
                            found[i]@,
                            require_touch,
                        ) && visited(found[i]@.placements.last(), def@, anchors@, vi as int, ai as int),
                    forall|p: Placement| #[trigger]
                        self@.legal(p, require_touch) && visited(p, def@, anchors@, vi as int, ai as int)
                            ==> exists|i: int| 0 <= i < found.len() && (#[trigger] found[i])@ == self@.place(p),
                    forall|i: int, j: int|
                        0 <= i < j < found.len() ==> (#[trigger] found[i])@.placements.last() != (
                        #[trigger] found[j])@.placements.last(),
                decreases anchors.len() - ai,
            {
                let (x, y, z) = anchors[ai];
                let ghost p = Placement { block: (sx, sy, sz), pos: (x, y, z) };
                let ghost before = found@;
                let ok = self.fits((sx, sy, sz), (x, y, z), require_touch);
                if ok {
                    let child = self.place((sx, sy, sz), (x, y, z));
                    proof {
                        assert(child@.placements.last() == p);
                        assert forall|i: int| 0 <= i < before.len() implies (#[trigger] before[i])@.placements.last()
                            != p by {
                            let q = before[i]@.placements.last();
                            assert(visited(q, def@, anchors@, vi as int, ai as int));
                            let (v, a) = choose|v: int, a: int|
                                #![trigger def@[v], anchors@[a]]
                                0 <= v < def@.len() && 0 <= a < anchors@.len() && (v < vi || (v == vi && a < ai))
                                    && q.block == def@[v] && q.pos == anchors@[a];
                            if v < vi {
                                lemma_catalog_distinct(depth, v, vi as int);
                            } else {
                                assert(anchors[a] != anchors[ai as int]);
                            }
                        }
                    }
                    found.push(child);
                }
                proof {
                    assert forall|i: int| 0 <= i < found.len() implies visited(
                        (#[trigger] found[i])@.placements.last(),
                        def@,
                        anchors@,
                        vi as int,
                        ai + 1,
                    ) by {
                        let q = found[i]@.placements.last();
                        if i < before.len() {
                            assert(found[i] == before[i]);
                            assert(visited(q, def@, anchors@, vi as int, ai as int));
                            let (v, a) = choose|v: int, a: int|
                                #![trigger def@[v], anchors@[a]]
                                0 <= v < def@.len() && 0 <= a < anchors@.len() && (v < vi || (v == vi && a < ai))
                                    && q.block == def@[v] && q.pos == anchors@[a];
                            assert(q.block == def@[v] && q.pos == anchors@[a]);
                        } else {
                            assert(q.block == def@[vi as int] && q.pos == anchors@[ai as int]);
                        }
                    }
                    assert forall|q: Placement| #[trigger]
                        self@.legal(q, require_touch) && visited(q, def@, anchors@, vi as int, ai + 1) implies exists|
                        i: int,
                    | 0 <= i < found.len() && (#[trigger] found[i])@ == self@.place(q) by {
                        let (v, a) = choose|v: int, a: int|
                            #![trigger def@[v], anchors@[a]]
                            0 <= v < def@.len() && 0 <= a < anchors@.len() && (v < vi || (v == vi && a < ai + 1))
                                && q.block == def@[v] && q.pos == anchors@[a];
                        if v == vi && a == ai {
                            assert(q == p);
                            assert(ok);
                            assert(found[found.len() - 1]@ == self@.place(q));
                        } else {
                            assert(q.block == def@[v] && q.pos == anchors@[a]);
                            assert(visited(q, def@, anchors@, vi as int, ai as int));
                            let i = choose|i: int| 0 <= i < before.len() && (#[trigger] before[i])@ == self@.place(q);
                            assert(found[i] == before[i]);
                        }
                    }
                    assert forall|i: int, j: int| 0 <= i < j < found.len() implies (#[trigger] found[i])@.placements.last()
                        != (#[trigger] found[j])@.placements.last() by {
                        assert(found[i] == before[i]);
                        if j < before.len() {
                            assert(found[j] == before[j]);
                        }
                    }
                }
                ai += 1;
            }
            proof {
                assert((vi + 1) * count == vi * count + count) by (nonlinear_arith);
                assert forall|i: int| 0 <= i < found.len() implies visited(
                    (#[trigger] found[i])@.placements.last(),
                    def@,
                    anchors@,
                    vi + 1,
                    0,
                ) by {
                    let q = found[i]@.placements.last();
                    assert(visited(q, def@, anchors@, vi as int, anchors.len() as int));
                    let (v, a) = choose|v: int, a: int|
                        #![trigger def@[v], anchors@[a]]
                        0 <= v < def@.len() && 0 <= a < anchors@.len() && (v < vi || (v == vi && a < anchors.len()))
                            && q.block == def@[v] && q.pos == anchors@[a];
                    assert(q.block == def@[v] && q.pos == anchors@[a]);
                }
                assert forall|q: Placement| #[trigger]
                    self@.legal(q, require_touch) && visited(q, def@, anchors@, vi + 1, 0) implies exists|i: int|
                    0 <= i < found.len() && (#[trigger] found[i])@ == self@.place(q) by {
                    let (v, a) = choose|v: int, a: int|
                        #![trigger def@[v], anchors@[a]]
                        0 <= v < def@.len() && 0 <= a < anchors@.len() && (v < vi + 1 || (v == vi + 1 && a < 0))
                            && q.block == def@[v] && q.pos == anchors@[a];
                    assert(q.block == def@[v] && q.pos == anchors@[a]);
                    assert(visited(q, def@, anchors@, vi as int, anchors.len() as int));
                }
            }
            vi += 1;
        }
        proof {
            self.lemma_wf();
            lemma_catalog_fills_cube(depth);
            if def.len() >= 2 {
                lemma_catalog_distinct(depth, 0, 1);
            }
            assert(found.len() <= 750) by (nonlinear_arith)
                requires
                    found.len() <= def.len() * count,
                    0 <= def.len() <= 6,
                    0 <= count <= 125,
            ;
            assert forall|q: Placement| #[trigger] self@.legal(q, require_touch) implies exists|i: int|
                0 <= i < found.len() && (#[trigger] found[i])@ == self@.place(q) by {
                let v = choose|v: int| 0 <= v < def@.len() && def@[v] == q.block;
                lemma_catalog_dims(depth, q.block);
                let c: Cell = cell_of(q.pos);
                assert(in_box(q, c));
                assert(self@.free.contains(c));
                let a = choose|a: int| 0 <= a < anchors.len() && cell_of(#[trigger] anchors[a]) == c;
                assert(anchors[a] == q.pos);
                assert(q.block == def@[v] && q.pos == anchors@[a]);
                assert(visited(q, def@, anchors@, def.len() as int, 0));
            }
            let placed = Seq::new(found.len() as nat, |i: int| found[i]@.placements.last());
            assert(placed.no_duplicates()) by {
                assert forall|i: int, j: int| 0 <= i < placed.len() && 0 <= j < placed.len() && i != j implies placed[i]
                    != placed[j] by {
                    if i < j {
                        assert(found[i]@.placements.last() != found[j]@.placements.last());
                    } else {
                        assert(found[j]@.placements.last() != found[i]@.placements.last());
                    }
                }
            }
            assert forall|q: Placement| placed.to_set().contains(q) == self@.legal_placements(require_touch).contains(
                q,
            ) by {
                if placed.contains(q) {
                    let i = choose|i: int| 0 <= i < placed.len() && placed[i] == q;
                    assert(is_child(self@, found[i]@, require_touch));
                }
                if self@.legal(q, require_touch) {
                    let i = choose|i: int| 0 <= i < found.len() && (#[trigger] found[i])@ == self@.place(q);
                    assert(placed[i] == q);
                }
            }
            assert(placed.to_set() =~= self@.legal_placements(require_touch));
            placed.unique_seq_to_set();
            vstd::seq_lib::seq_to_set_is_finite(placed);
        }
        Ok(found)
    }

    /// The successors of the state without the boundary rule: one child for
    /// every placement of the next brick whose box is free.
    pub fn next(&self) -> (r: Result<Vec<State>, SearchError>)
        requires
            self.wf(),
        ensures
            match r {
                Ok(kids) => {
                    &&& self@.depth() < 17
                    &&& kids.len() <= 750
                    &&& self@.legal_placements(false).finite()
                    &&& kids.len() == self@.legal_placements(false).len()
                    &&& forall|i: int| 0 <= i < kids.len() ==> (#[trigger] kids[i]).wf() && is_child(self@, kids[i]@, false)
                    &&& forall|p: Placement| #[trigger]
                        self@.legal(p, false) ==> exists|i: int|
                            0 <= i < kids.len() && (#[trigger] kids[i])@ == self@.place(p)
                    &&& forall|i: int, j: int|
                        0 <= i < j < kids.len() ==> (#[trigger] kids[i])@.placements.last() != (
                        #[trigger] kids[j])@.placements.last()
                },
                Err(e) => e == SearchError::CatalogExhausted && self@.depth() >= 17,
            },
    {
        self.successors(false)
    }

    /// Places one brick if that is legal, and says so if it is not.
    pub fn try_place(&self, block: Block, pos: Pos, require_touch: bool) -> (r: Option<State>)
        requires
            self.wf(),
        ensures
            match r {
                Some(child) => self@.legal(Placement { block, pos }, require_touch) && child.wf() && child@
                    == self@.place(Placement { block, pos }) && child@.free.len() == self@.free.len() - volume(block),
                None => !self@.legal(Placement { block, pos }, require_touch),
            },
    {
        let def = match get_block_def(self.placements.len()) {
            Some(def) => def,
            None => {
                return None;
            },
        };
        let mut listed = false;
        let mut n: usize = 0;
        while n < def.len()
            invariant
                n <= def.len(),
                listed <==> exists|i: int| 0 <= i < n && def[i] == block,
            decreases def.len() - n,
        {
            let d = def[n];
            if d.0 == block.0 && d.1 == block.1 && d.2 == block.2 {
                listed = true;
            }
            n += 1;
        }
        if !listed {
            return None;
        }
        proof {
            let i = choose|i: int| 0 <= i < def.len() && def[i] == block;
            assert(def@.contains(def@[i]));
            lemma_catalog_dims(self@.depth(), block);
        }
        if !self.fits(block, pos, require_touch) {
            return None;
        }
        Some(self.place(block, pos))
    }
}

/// Volume conservation: in a well-formed state the boxes of the placements
/// lie in the cube, no two of them overlap, every cell of the cube is either
/// free or covered by a box and never both, and the free cells number 125
/// less the volume of the bricks placed.
pub proof fn lemma_boxes_and_free_tile_cube(v: StateView)
    requires
        v.well_formed(),
    ensures
        forall|c: Cell| covered(v.placements, c) ==> in_cube(c),
        forall|c: Cell| in_cube(c) ==> (#[trigger] v.free.contains(c) <==> !covered(v.placements, c)),
        forall|c: Cell| #[trigger] v.free.contains(c) ==> in_cube(c),
        forall|i: int, j: int|
            0 <= i < j < v.placements.len() ==> #[trigger] box_of(v.placements[i]).disjoint(
                #[trigger] box_of(v.placements[j]),
            ),
        v.free.len() == 125 - filled(v.depth()),
{
    assert forall|c: Cell| covered(v.placements, c) implies in_cube(c) by {
        let i = choose|i: int| 0 <= i < v.placements.len() && in_box(#[trigger] v.placements[i], c);
        assert(box_in_cube(v.placements[i]));
    }
}

/// Termination bound: a well-formed state has no free cell exactly when all
/// seventeen bricks are placed.
pub proof fn lemma_solved_depth(v: StateView)
    requires
        v.well_formed(),
    ensures
        v.solved() <==> v.depth() == 17,
{
    lemma_catalog_fills_cube(v.depth());
}

/// Depth-catalog correspondence: the brick of a child is an orientation of
/// the brick that the catalog names for the depth of its parent, and in a
/// well-formed state the brick with number `i` is an orientation of the
/// catalog's brick number `i`.
pub proof fn lemma_depth_catalog(parent: StateView, kid: StateView, require_touch: bool)
    requires
        is_child(parent, kid, require_touch),
    ensures
        kid.depth() == parent.depth() + 1,
        in_catalog(parent.depth(), kid.placements.last().block),
{
}

} // verus!
