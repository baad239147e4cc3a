//! Hash sets that hash with `fxhash`.
//!
//! The sets are `std::collections::HashSet` with the hasher of the `fxhash`
//! crate. Their contents are spoken of through the view that `vstd` gives to
//! `HashSet`, a `Set` of keys. What the operations do to that view is stated
//! here and taken on trust: it is what the standard library documents for a
//! `HashSet` whose hasher gives equal keys equal hashes, which `FxHasher`
//! does, as it starts from a fixed state and reads nothing but the key.

use fxhash::FxHashSet;
use fxhash::FxHasher;
use std::hash::BuildHasherDefault;
use std::hash::Hash;
use vstd::prelude::*;
use vstd::std_specs::hash::obeys_key_model;

verus! {

/// The hasher of the `fxhash` crate, carried as an opaque type.
#[verifier::external_type_specification]
#[verifier::external_body]
pub struct ExFxHasher(FxHasher);

/// The standard builder that makes a hasher from its `Default`, carried as
/// an opaque type.
#[verifier::external_type_specification]
#[verifier::external_body]
#[verifier::reject_recursive_types(H)]
pub struct ExBuildHasherDefault<H>(BuildHasherDefault<H>);

/// `FxHashSet::default`: a new set holds no key.
#[verifier::external_body]
pub(crate) fn fx_set_new<K>() -> (s: FxHashSet<K>)
    ensures
        s@ == Set::<K>::empty(),
{
    FxHashSet::default()
}

/// `HashSet::insert` on an `FxHashSet`: the key is added to the set, and the
/// result says whether it was absent before.
#[verifier::external_body]
pub(crate) fn fx_set_insert<K: Hash + Eq>(s: &mut FxHashSet<K>, k: K) -> (fresh: bool)
    requires
        obeys_key_model::<K>(),
    ensures
        final(s)@ == old(s)@.insert(k),
        fresh == !old(s)@.contains(k),
{
    s.insert(k)
}

/// `HashSet::remove` on an `FxHashSet`: the key is taken out of the set, and
/// the result says whether it was present before.
#[verifier::external_body]
pub(crate) fn fx_set_remove<K: Hash + Eq>(s: &mut FxHashSet<K>, k: &K) -> (found: bool)
    requires
        obeys_key_model::<K>(),
    ensures
        final(s)@ == old(s)@.remove(*k),
        found == old(s)@.contains(*k),
{
    s.remove(k)
}

/// `HashSet::contains` on an `FxHashSet`: whether the key is in the set.
#[verifier::external_body]
pub(crate) fn fx_set_contains<K: Hash + Eq>(s: &FxHashSet<K>, k: &K) -> (found: bool)
    requires
        obeys_key_model::<K>(),
    ensures
        found == s@.contains(*k),
{
    s.contains(k)
}

/// `HashSet::len` on an `FxHashSet`: the number of keys in the set.
#[verifier::external_body]
pub(crate) fn fx_set_len<K>(s: &FxHashSet<K>) -> (n: usize)
    ensures
        n == s@.len(),
{
    s.len()
}

/// `Clone::clone` on an `FxHashSet` of copyable keys: the copy holds the
/// same keys.
#[verifier::external_body]
pub(crate) fn fx_set_clone<K: Copy>(s: &FxHashSet<K>) -> (r: FxHashSet<K>)
    ensures
        r@ == s@,
{
    s.clone()
}

/// `HashSet::iter` on an `FxHashSet`, collected: every key of the set once,
/// in the order in which the table is walked, of which nothing is said.
#[verifier::external_body]
pub(crate) fn fx_set_keys<K: Copy>(s: &FxHashSet<K>) -> (v: Vec<K>)
    ensures
        v@.to_set() == s@,
        v@.no_duplicates(),
{
    s.iter().copied().collect()
}

} // verus!
