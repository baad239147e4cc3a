//! The priority queue of the search: a max-heap of the `binary_heap_plus`
//! crate over pairs of integers.
//!
//! An item is a pair of a priority and the number of a slot. Pairs are
//! ordered by the priority first and by the slot number second, which is the
//! order that the standard library defines for tuples. What the heap holds is
//! spoken of as a multiset of pairs. What its operations do to that multiset
//! is stated here and taken on trust.

use binary_heap_plus::BinaryHeap;
use binary_heap_plus::MaxComparator;
use vstd::multiset::Multiset;
use vstd::prelude::*;

verus! {

/// The comparator of a max-heap, carried as an opaque type.
#[verifier::external_type_specification]
#[verifier::external_body]
pub struct ExMaxComparator(MaxComparator);

/// The heap of `binary_heap_plus`, carried as an opaque type.
#[verifier::external_type_specification]
#[verifier::external_body]
#[verifier::reject_recursive_types(T)]
#[verifier::reject_recursive_types(C)]
pub struct ExBinaryHeap<T, C>(BinaryHeap<T, C>);

/// The queue of the search.
pub type Frontier = BinaryHeap<(usize, usize), MaxComparator>;

/// The items that a queue holds.
pub uninterp spec fn heap_items(h: Frontier) -> Multiset<(usize, usize)>;

/// The order of pairs: by the first component, then by the second.
pub open spec fn pair_le(a: (usize, usize), b: (usize, usize)) -> bool {
    a.0 < b.0 || (a.0 == b.0 && a.1 <= b.1)
}

/// `BinaryHeap::new`: a new heap holds no item.
#[verifier::external_body]
pub(crate) fn heap_new() -> (h: Frontier)
    ensures
        heap_items(h) == Multiset::<(usize, usize)>::empty(),
{
    BinaryHeap::new()
}

/// `BinaryHeap::push`: the item is added to the heap.
#[verifier::external_body]
pub(crate) fn heap_push(h: &mut Frontier, item: (usize, usize))
    ensures
        heap_items(*final(h)) == heap_items(*old(h)).insert(item),
{
    h.push(item)
}

/// `BinaryHeap::pop`: removes and returns an item that no other item of the
/// heap exceeds, or returns `None` and leaves the heap as it is when it
/// holds no item.
#[verifier::external_body]
pub(crate) fn heap_pop(h: &mut Frontier) -> (top: Option<(usize, usize)>)
    ensures
        match top {
            Some(item) => {
                &&& heap_items(*old(h)).contains(item)
                &&& heap_items(*final(h)) == heap_items(*old(h)).remove(item)
                &&& forall|other: (usize, usize)| #[trigger] heap_items(*old(h)).contains(other) ==> pair_le(other, item)
            },
            None => heap_items(*old(h)) == Multiset::<(usize, usize)>::empty() && heap_items(*final(h)) == heap_items(
                *old(h),
            ),
        },
{
    h.pop()
}

/// `BinaryHeap::len`: the number of items in the heap.
#[verifier::external_body]
pub(crate) fn heap_len(h: &Frontier) -> (n: usize)
    ensures
        n == heap_items(*h).len(),
{
    h.len()
}

} // verus!
