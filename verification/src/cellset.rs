//! A set of cells of the cube and of the layer of cells around it.
//!
//! The search keeps two such sets per state: the cells that are still free,
//! and the cells next to a placed brick. The second reaches one step outside
//! the cube, so a set holds cells with coordinates from -1 to 5. Each cell is
//! stored under one integer key in a hash set.

use crate::fxset::{fx_set_clone, fx_set_contains, fx_set_insert, fx_set_keys, fx_set_len, fx_set_new, fx_set_remove};
use crate::pattern::Cell;
use fxhash::FxHashSet;
use vstd::prelude::*;
use vstd::std_specs::hash::axiom_u32_obeys_hash_table_key_model;

verus! {

/// Whether `c` lies in the cube or in the layer of cells around it.
pub open spec fn in_halo(c: Cell) -> bool {
    -1 <= c.0 <= 5 && -1 <= c.1 <= 5 && -1 <= c.2 <= 5
}

/// The cell with the given machine coordinates.
pub open spec fn cell_of(pos: (i32, i32, i32)) -> Cell {
    (pos.0 as int, pos.1 as int, pos.2 as int)
}

/// The key under which a cell is stored.
spec fn cell_key(c: Cell) -> int {
    (c.0 + 1) * 49 + (c.1 + 1) * 7 + (c.2 + 1)
}

/// The cell that is stored under a key.
spec fn key_cell(k: int) -> Cell {
    (k / 49 - 1, (k / 7) % 7 - 1, k % 7 - 1)
}

/// The cells that a set of keys stands for.
spec fn key_cells(keys: Set<u32>) -> Set<Cell> {
    Set::new(|c: Cell| in_halo(c) && keys.contains(cell_key(c) as u32))
}

/// A set of keys holds only keys of cells, and as many keys as cells.
spec fn keys_coupled(keys: Set<u32>) -> bool {
    &&& keys.finite()
    &&& key_cells(keys).finite()
    &&& key_cells(keys).len() == keys.len()
    &&& forall|k: u32| keys.contains(k) ==> k < 343
}

/// Keys and cells of the halo correspond one to one.
proof fn lemma_key_of_cell(c: Cell)
    requires
        in_halo(c),
    ensures
        0 <= cell_key(c) < 343,
        key_cell(cell_key(c)) == c,
{
}

/// Keys and cells of the halo correspond one to one.
proof fn lemma_cell_of_key(k: int)
    requires
        0 <= k < 343,
    ensures
        in_halo(key_cell(k)),
        cell_key(key_cell(k)) == k,
{
}

proof fn lemma_keys_empty()
    ensures
        keys_coupled(Set::<u32>::empty()),
        key_cells(Set::<u32>::empty()) == Set::<Cell>::empty(),
{
    assert(key_cells(Set::<u32>::empty()) =~= Set::<Cell>::empty());
}

proof fn lemma_keys_insert(keys: Set<u32>, c: Cell)
    requires
        keys_coupled(keys),
        in_halo(c),
    ensures
        keys_coupled(keys.insert(cell_key(c) as u32)),
        key_cells(keys.insert(cell_key(c) as u32)) == key_cells(keys).insert(c),
        keys.contains(cell_key(c) as u32) == key_cells(keys).contains(c),
{
    let k = cell_key(c) as u32;
    assert forall|d: Cell| key_cells(keys.insert(k)).contains(d) == key_cells(keys).insert(c).contains(d) by {
        if in_halo(d) {
            lemma_key_of_cell(d);
            lemma_key_of_cell(c);
        }
    }
    assert(key_cells(keys.insert(k)) =~= key_cells(keys).insert(c));
}

proof fn lemma_keys_remove(keys: Set<u32>, c: Cell)
    requires
        keys_coupled(keys),
        in_halo(c),
    ensures
        keys_coupled(keys.remove(cell_key(c) as u32)),
        key_cells(keys.remove(cell_key(c) as u32)) == key_cells(keys).remove(c),
        keys.contains(cell_key(c) as u32) == key_cells(keys).contains(c),
{
    let k = cell_key(c) as u32;
    assert forall|d: Cell| key_cells(keys.remove(k)).contains(d) == key_cells(keys).remove(c).contains(d) by {
        if in_halo(d) {
            lemma_key_of_cell(d);
            lemma_key_of_cell(c);
        }
    }
    assert(key_cells(keys.remove(k)) =~= key_cells(keys).remove(c));
}

/// A set of cells with coordinates from -1 to 5.
#[derive(Debug)]
pub struct CellSet {
    keys: FxHashSet<u32>,
}

impl Clone for CellSet {
    /// A copy of the set.
    fn clone(&self) -> (copy: CellSet)
        ensures
            copy.wf() == self.wf(),
            copy@ == self@,
    {
        self.duplicate()
    }
}

impl View for CellSet {
    type V = Set<Cell>;

    closed spec fn view(&self) -> Set<Cell> {
        key_cells(self.keys@)
    }
}

/// Whether machine coordinates name a cell of the halo.
pub open spec fn pos_in_halo(x: i32, y: i32, z: i32) -> bool {
    in_halo((x as int, y as int, z as int))
}

fn key_of(x: i32, y: i32, z: i32) -> (k: u32)
    requires
        pos_in_halo(x, y, z),
    ensures
        k == cell_key((x as int, y as int, z as int)),
        k < 343,
{
    ((x + 1) * 49 + (y + 1) * 7 + (z + 1)) as u32
}

impl CellSet {
    /// The set stores its cells consistently.
    pub closed spec fn wf(&self) -> bool {
        keys_coupled(self.keys@)
    }

    /// A well-formed set is finite and holds cells of the halo only.
    pub proof fn lemma_bounded(&self)
        requires
            self.wf(),
        ensures
            self@.finite(),
            forall|c: Cell| self@.contains(c) ==> in_halo(c),
    {
    }

    /// The empty set.
    pub fn new() -> (s: CellSet)
        ensures
            s.wf(),
            s@ == Set::<Cell>::empty(),
    {
        proof {
            lemma_keys_empty();
        }
        CellSet { keys: fx_set_new() }
    }

    /// Adds a cell. Returns whether it was absent.
    pub fn insert(&mut self, x: i32, y: i32, z: i32) -> (fresh: bool)
        requires
            old(self).wf(),
            pos_in_halo(x, y, z),
        ensures
            final(self).wf(),
            final(self)@ == old(self)@.insert((x as int, y as int, z as int)),
            fresh == !old(self)@.contains((x as int, y as int, z as int)),
    {
        broadcast use axiom_u32_obeys_hash_table_key_model;

        proof {
            lemma_keys_insert(self.keys@, (x as int, y as int, z as int));
        }
        fx_set_insert(&mut self.keys, key_of(x, y, z))
    }

    /// Takes a cell out. Returns whether it was present.
    pub fn remove(&mut self, x: i32, y: i32, z: i32) -> (found: bool)
        requires
            old(self).wf(),
        ensures
            final(self).wf(),
            final(self)@ == old(self)@.remove((x as int, y as int, z as int)),
            found == old(self)@.contains((x as int, y as int, z as int)),
    {
        broadcast use axiom_u32_obeys_hash_table_key_model;

        if x < -1 || x > 5 || y < -1 || y > 5 || z < -1 || z > 5 {
            assert(self@.remove((x as int, y as int, z as int)) =~= self@);
            return false;
        }
        proof {
            lemma_keys_remove(self.keys@, (x as int, y as int, z as int));
        }
        let k = key_of(x, y, z);
        fx_set_remove(&mut self.keys, &k)
    }

    /// Whether the cell is in the set.
    pub fn contains(&self, x: i32, y: i32, z: i32) -> (found: bool)
        ensures
            found == self@.contains((x as int, y as int, z as int)),
    {
        broadcast use axiom_u32_obeys_hash_table_key_model;

        if x < -1 || x > 5 || y < -1 || y > 5 || z < -1 || z > 5 {
            return false;
        }
        let k = key_of(x, y, z);
        fx_set_contains(&self.keys, &k)
    }

    /// The number of cells in the set.
    pub fn len(&self) -> (n: usize)
        requires
            self.wf(),
        ensures
            n == self@.len(),
    {
        fx_set_len(&self.keys)
    }

    /// A copy of the set.
    pub fn duplicate(&self) -> (copy: CellSet)
        ensures
            copy.wf() == self.wf(),
            copy@ == self@,
    {
        CellSet { keys: fx_set_clone(&self.keys) }
    }

    /// The cells of the set, each once, in no particular order.
    pub fn cells(&self) -> (list: Vec<(i32, i32, i32)>)
        requires
            self.wf(),
        ensures
            list.len() == self@.len(),
            forall|i: int| 0 <= i < list.len() ==> self@.contains(cell_of(#[trigger] list[i])),
            forall|c: Cell| self@.contains(c) ==> exists|i: int| 0 <= i < list.len() && cell_of(#[trigger] list[i]) == c,
            forall|i: int, j: int| 0 <= i < j < list.len() ==> list[i] != list[j],
    {
        let keys = fx_set_keys(&self.keys);
        let mut list: Vec<(i32, i32, i32)> = Vec::new();
        let mut n: usize = 0;
        proof {
            keys@.unique_seq_to_set();
            assert forall|i: int| 0 <= i < keys.len() implies #[trigger] keys[i] < 343 by {
                assert(keys@.contains(keys[i]));
                assert(keys@.to_set().contains(keys[i]));
            }
        }
        while n < keys.len()
            invariant
                n <= keys.len(),
                list.len() == n,
                forall|i: int| 0 <= i < keys.len() ==> #[trigger] keys[i] < 343,
                forall|i: int| 0 <= i < n ==> cell_of(#[trigger] list[i]) == key_cell(keys[i] as int),
            decreases keys.len() - n,
        {
            let k = keys[n];
            let x = (k / 49) as i32 - 1;
            let y = ((k / 7) % 7) as i32 - 1;
            let z = (k % 7) as i32 - 1;
            list.push((x, y, z));
            n += 1;
        }
        proof {
            assert forall|i: int| 0 <= i < list.len() implies self@.contains(cell_of(#[trigger] list[i])) by {
                lemma_cell_of_key(keys[i] as int);
                assert(keys@.contains(keys[i]));
                assert(keys@.to_set().contains(keys[i]));
            }
            assert forall|c: Cell| self@.contains(c) implies exists|i: int| 0 <= i < list.len() && cell_of(#[trigger] list[i]) == c by {
                lemma_key_of_cell(c);
                let k = cell_key(c) as u32;
                assert(keys@.to_set().contains(k));
                assert(keys@.contains(k));
                let i = choose|i: int| 0 <= i < keys@.len() && keys@[i] == k;
                assert(cell_of(list[i]) == c);
            }
            assert forall|i: int, j: int| 0 <= i < j < list.len() implies list[i] != list[j] by {
                lemma_cell_of_key(keys[i] as int);
                lemma_cell_of_key(keys[j] as int);
                assert(cell_of(list[i]) == key_cell(keys[i] as int));
                assert(cell_of(list[j]) == key_cell(keys[j] as int));
            }
        }
        list
    }
}

} // verus!
