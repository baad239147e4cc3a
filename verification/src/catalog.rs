//! The brick catalog: which class of brick is placed at which depth of the
//! search, and the orientations of each class.

use vstd::prelude::*;

verus! {

/// A position in the cube.
pub type Pos = (i32, i32, i32);

/// The extent of a brick along the three axes, in one orientation.
pub type Dims = (i32, i32, i32);

/// A brick is its dimensions.
pub type Block = Dims;

/// A class of bricks: every orientation in which the brick may be placed.
pub type BlockDef = Vec<Dims>;

/// The orientations of the 2×2×3 brick.
pub open spec fn big_block_def() -> Seq<Dims> {
    seq![(3i32, 2i32, 2i32), (2i32, 3i32, 2i32), (2i32, 2i32, 3i32)]
}

/// The orientations of the 1×2×4 brick.
pub open spec fn flat_block_def() -> Seq<Dims> {
    seq![
        (1i32, 2i32, 4i32),
        (1i32, 4i32, 2i32),
        (2i32, 1i32, 4i32),
        (2i32, 4i32, 1i32),
        (4i32, 1i32, 2i32),
        (4i32, 2i32, 1i32),
    ]
}

/// The single orientation of the 1×1×1 brick.
pub open spec fn pixel_block_def() -> Seq<Dims> {
    seq![(1i32, 1i32, 1i32)]
}

/// The class of the brick with number `no`: six big bricks, then six flat
/// ones, then five single cells. There is no brick with number 17 or more.
pub open spec fn block_def(no: int) -> Option<Seq<Dims>> {
    if no < 6 {
        Some(big_block_def())
    } else if no < 12 {
        Some(flat_block_def())
    } else if no < 17 {
        Some(pixel_block_def())
    } else {
        None
    }
}

/// The number of cells of a brick.
pub open spec fn volume(d: Dims) -> int {
    d.0 * d.1 * d.2
}

/// The number of cells that the first `depth` bricks of the catalog fill.
pub open spec fn filled(depth: int) -> int {
    if depth <= 6 {
        12 * depth
    } else if depth <= 12 {
        72 + 8 * (depth - 6)
    } else {
        120 + (depth - 12)
    }
}

/// Whether `d` is an orientation of the brick with number `no`.
pub open spec fn in_catalog(no: int, d: Dims) -> bool {
    block_def(no) is Some && block_def(no)->0.contains(d)
}

/// An orientation from the catalog extends over one to four cells along
/// each axis, and fills as many cells as its depth adds to `filled`.
pub proof fn lemma_catalog_dims(no: int, d: Dims)
    requires
        0 <= no,
        in_catalog(no, d),
    ensures
        no < 17,
        1 <= d.0 <= 4,
        1 <= d.1 <= 4,
        1 <= d.2 <= 4,
        volume(d) == filled(no + 1) - filled(no),
{
    let def = block_def(no)->0;
    let i = choose|i: int| 0 <= i < def.len() && def[i] == d;
    assert(def[i] == d);
    if no < 6 {
        assert((d.0 == 3 && d.1 == 2 && d.2 == 2) || (d.0 == 2 && d.1 == 3 && d.2 == 2) || (d.0 == 2 && d.1 == 2 && d.2 == 3));
        assert(d.0 * d.1 * d.2 == 12) by (nonlinear_arith)
            requires
                (d.0 == 3 && d.1 == 2 && d.2 == 2) || (d.0 == 2 && d.1 == 3 && d.2 == 2) || (d.0 == 2 && d.1 == 2 && d.2 == 3),
        ;
    } else if no < 12 {
        assert({
            ||| (d.0 == 1 && d.1 == 2 && d.2 == 4)
            ||| (d.0 == 1 && d.1 == 4 && d.2 == 2)
            ||| (d.0 == 2 && d.1 == 1 && d.2 == 4)
            ||| (d.0 == 2 && d.1 == 4 && d.2 == 1)
            ||| (d.0 == 4 && d.1 == 1 && d.2 == 2)
            ||| (d.0 == 4 && d.1 == 2 && d.2 == 1)
        });
        assert(d.0 * d.1 * d.2 == 8) by (nonlinear_arith)
            requires
                ({
                    ||| (d.0 == 1 && d.1 == 2 && d.2 == 4)
                    ||| (d.0 == 1 && d.1 == 4 && d.2 == 2)
                    ||| (d.0 == 2 && d.1 == 1 && d.2 == 4)
                    ||| (d.0 == 2 && d.1 == 4 && d.2 == 1)
                    ||| (d.0 == 4 && d.1 == 1 && d.2 == 2)
                    ||| (d.0 == 4 && d.1 == 2 && d.2 == 1)
                }),
        ;
    } else {
        assert(d.0 == 1 && d.1 == 1 && d.2 == 1);
        assert(d.0 * d.1 * d.2 == 1) by (nonlinear_arith)
            requires
                d.0 == 1 && d.1 == 1 && d.2 == 1,
        ;
    }
}

/// The catalog fills the cube exactly.
pub proof fn lemma_catalog_fills_cube(depth: int)
    requires
        0 <= depth <= 17,
    ensures
        0 <= filled(depth) <= 125,
        filled(depth) == 125 <==> depth == 17,
{
}

/// The orientations of the 2×2×3 brick.
pub fn get_big_block_def() -> (def: BlockDef)
    ensures
        def@ == big_block_def(),
{
    let def = vec![(3, 2, 2), (2, 3, 2), (2, 2, 3)];
    assert(def@ =~= big_block_def());
    def
}

/// The orientations of the 1×2×4 brick.
pub fn get_flat_block_def() -> (def: BlockDef)
    ensures
        def@ == flat_block_def(),
{
    let def = vec![(1, 2, 4), (1, 4, 2), (2, 1, 4), (2, 4, 1), (4, 1, 2), (4, 2, 1)];
    assert(def@ =~= flat_block_def());
    def
}

/// The single orientation of the 1×1×1 brick.
pub fn get_pixel_block_def() -> (def: BlockDef)
    ensures
        def@ == pixel_block_def(),
{
    let def = vec![(1, 1, 1)];
    assert(def@ =~= pixel_block_def());
    def
}

/// The class of the brick with number `no`, or `None` past the end of the
/// catalog.
pub fn get_block_def(no: usize) -> (def: Option<BlockDef>)
    ensures
        match def {
            Some(d) => block_def(no as int) == Some(d@),
            None => block_def(no as int) is None,
        },
{
    if no < 6 {
        Some(get_big_block_def())
    } else if no < 6 + 6 {
        Some(get_flat_block_def())
    } else if no < 6 + 6 + 5 {
        Some(get_pixel_block_def())
    } else {
        None
    }
}

/// No class lists an orientation twice, and no class has more than six.
pub proof fn lemma_catalog_distinct(no: int, i: int, j: int)
    requires
        block_def(no) is Some,
        0 <= i < j < block_def(no)->0.len(),
    ensures
        block_def(no)->0[i] != block_def(no)->0[j],
        block_def(no)->0.len() <= 6,
{
}

} // verus!
