//! The best-first search: a frontier of states ordered by the number of
//! cells they have filled, and a record of the fingerprints of the states
//! that were taken from it.

use crate::catalog::lemma_catalog_fills_cube;
use crate::frontier::{heap_items, heap_len, heap_new, heap_pop, heap_push, pair_le, Frontier};
use crate::fxset::{fx_set_contains, fx_set_insert, fx_set_new};
use crate::pattern::fingerprint;
use crate::state::{is_child, lemma_solved_depth, Placement, State, StateView};
use fxhash::FxHashSet;
use vstd::multiset::Multiset;
use vstd::pervasive::unreached;
use vstd::prelude::*;
use vstd::std_specs::hash::axiom_u128_obeys_hash_table_key_model;

verus! {

/// What one step of the search did.
pub enum Step {
    /// A state was taken from the frontier and its successors were added.
    Running {
        /// The number of bricks of the state that was taken.
        placements: usize,
        /// The number of free cells of the state that was taken.
        space_left: usize,
    },
    /// The state that was taken has no free cell: it is a solution.
    Solved(State),
    /// The frontier was empty.
    Exhausted,
}

/// The mathematical content of a search.
pub ghost struct SearchView {
    /// Every state that was ever added, under the number of its slot. The
    /// slot of a state that was taken from the frontier is empty.
    pub slots: Seq<Option<StateView>>,
    /// The fingerprints of the states that were taken from the frontier.
    pub seen: Set<u128>,
    /// Whether a placement has to touch the boundary.
    pub require_touch: bool,
    /// The number of successors that were dropped because their fingerprint
    /// was recorded, counted up to the largest number the machine holds.
    pub collisions: nat,
}

/// A count, held at the largest number that the machine holds.
pub open spec fn saturated(n: int) -> int {
    if n > usize::MAX {
        usize::MAX as int
    } else {
        n
    }
}

/// The weight of a state at a depth: more than 750 states of the next depth
/// together.
pub open spec fn depth_weight(depth: int) -> int
    decreases 17 - depth,
{
    if depth >= 17 {
        1
    } else {
        751 * depth_weight(depth + 1)
    }
}

/// The weight of a slot: that of its state, or nothing when it is empty.
pub open spec fn slot_weight(slot: Option<StateView>) -> int {
    match slot {
        Some(v) => depth_weight(v.depth()),
        None => 0,
    }
}

/// The weight of all slots together.
pub open spec fn total_weight(slots: Seq<Option<StateView>>) -> int
    decreases slots.len(),
{
    if slots.len() == 0 {
        0
    } else {
        total_weight(slots.drop_last()) + slot_weight(slots.last())
    }
}

/// The number of slots that hold a state.
pub open spec fn live_count(slots: Seq<Option<StateView>>) -> int
    decreases slots.len(),
{
    if slots.len() == 0 {
        0
    } else {
        live_count(slots.drop_last()) + if slots.last() is Some {
            1int
        } else {
            0int
        }
    }
}

impl SearchView {
    /// Slot `i` holds a state.
    pub open spec fn live(self, i: int) -> bool {
        0 <= i < self.slots.len() && self.slots[i] is Some
    }

    /// The frontier is empty.
    pub open spec fn exhausted(self) -> bool {
        forall|i: int| !self.live(i)
    }

    /// Slot `i` holds a state, and no state of the frontier has fewer free
    /// cells.
    pub open spec fn best(self, i: int) -> bool {
        &&& self.live(i)
        &&& forall|j: int| #[trigger] self.live(j) ==> self.slots[i]->0.free.len() <= self.slots[j]->0.free.len()
    }

    /// `after` is this search with the state of slot `i` taken from the
    /// frontier and its fingerprint recorded. The earlier slots are
    /// otherwise as they were.
    pub open spec fn took(self, after: SearchView, i: int) -> bool {
        &&& self.best(i)
        &&& after.require_touch == self.require_touch
        &&& after.seen == self.seen.insert(fingerprint(self.slots[i]->0.free) as u128)
        &&& after.slots.len() >= self.slots.len()
        &&& after.slots.take(self.slots.len() as int) == self.slots.update(i, None)
    }

    /// `after` is this search with the state of slot `i` expanded: the state
    /// is taken, and the new slots hold its successors whose fingerprint is
    /// not recorded, each once.
    pub open spec fn expanded(self, after: SearchView, i: int) -> bool {
        let parent = self.slots[i]->0;
        let base = self.slots.len() as int;
        &&& self.took(after, i)
        &&& forall|j: int|
            base <= j < after.slots.len() ==> (#[trigger] after.slots[j]) is Some && is_child(
                parent,
                after.slots[j]->0,
                self.require_touch,
            ) && !after.seen.contains(fingerprint(after.slots[j]->0.free) as u128)
        &&& forall|p: Placement| #[trigger]
            parent.legal(p, self.require_touch) && !after.seen.contains(fingerprint(parent.place(p).free) as u128)
                ==> exists|j: int| base <= j < after.slots.len() && #[trigger] after.slots[j] == Some(parent.place(p))
        &&& forall|j: int, k: int|
            base <= j < k < after.slots.len() ==> #[trigger] after.slots[j] != #[trigger] after.slots[k]
        &&& after.collisions == saturated(
            self.collisions + parent.legal_placements(self.require_touch).len() - (after.slots.len() - base),
        )
    }

    /// The measure that every step lowers.
    pub open spec fn weight(self) -> int {
        total_weight(self.slots)
    }

    /// The search that `Search::new` starts: the empty cube is the only
    /// state of the frontier, and nothing is recorded.
    pub open spec fn start(require_touch: bool) -> SearchView {
        SearchView {
            slots: seq![Some(StateView::initial())],
            seen: Set::<u128>::empty(),
            require_touch,
            collisions: 0,
        }
    }

    /// `after` follows from this search by one step that expands a state
    /// with free cells.
    pub open spec fn steps_to(self, after: SearchView) -> bool {
        exists|i: int| #[trigger] self.expanded(after, i) && !self.slots[i]->0.solved()
    }

    /// `after` follows from this search by the step that takes the state
    /// `found`, which has no free cell, and adds nothing.
    pub open spec fn solves_to(self, after: SearchView, found: StateView) -> bool {
        exists|i: int|
            #[trigger] self.took(after, i) && self.slots[i] == Some(found) && found.solved() && after.slots.len()
                == self.slots.len() && after.collisions == self.collisions
    }
}

/// A run of the search: each search of the sequence follows from the one
/// before it by one expanding step.
pub open spec fn is_run(trace: Seq<SearchView>) -> bool {
    &&& trace.len() > 0
    &&& forall|k: int| 0 <= k < trace.len() - 1 ==> (#[trigger] trace[k]).steps_to(trace[k + 1])
}

/// What a search that ran from `start` to its end left and returned. Some
/// run leads from `start` to a search from which no expanding step goes on:
/// either its frontier is empty, it is `end`, and nothing was found; or its
/// next step takes the state `found`, which has no free cell, and leaves
/// `end`.
pub open spec fn run_outcome(start: SearchView, end: SearchView, found: Option<StateView>) -> bool {
    exists|trace: Seq<SearchView>|
        #[trigger] is_run(trace) && trace[0] == start && match found {
            Some(s) => trace.last().solves_to(end, s),
            None => trace.last() == end && end.exhausted(),
        }
}

/// A run that is one expanding step longer is a run.
pub proof fn lemma_run_extends(trace: Seq<SearchView>, after: SearchView)
    requires
        is_run(trace),
        trace.last().steps_to(after),
    ensures
        is_run(trace.push(after)),
        trace.push(after)[0] == trace[0],
        trace.push(after).last() == after,
{
    let longer = trace.push(after);
    assert forall|k: int| 0 <= k < longer.len() - 1 implies (#[trigger] longer[k]).steps_to(longer[k + 1]) by {
        if k < trace.len() - 1 {
            assert(longer[k] == trace[k]);
            assert(longer[k + 1] == trace[k + 1]);
        } else {
            assert(longer[k] == trace.last());
            assert(longer[k + 1] == after);
        }
    }
}

/// The weight of a depth is positive.
pub proof fn lemma_depth_weight_positive(depth: int)
    ensures
        depth_weight(depth) >= 1,
    decreases 17 - depth,
{
    if depth < 17 {
        lemma_depth_weight_positive(depth + 1);
    }
}

/// The total weight is never negative.
pub proof fn lemma_total_weight_bound(slots: Seq<Option<StateView>>)
    ensures
        total_weight(slots) >= 0,
    decreases slots.len(),
{
    if slots.len() > 0 {
        lemma_total_weight_bound(slots.drop_last());
        if slots.last() is Some {
            lemma_depth_weight_positive(slots.last()->0.depth());
        }
    }
}

/// A new slot adds its weight.
pub proof fn lemma_total_weight_push(slots: Seq<Option<StateView>>, slot: Option<StateView>)
    ensures
        total_weight(slots.push(slot)) == total_weight(slots) + slot_weight(slot),
{
    assert(slots.push(slot).drop_last() =~= slots);
}

/// An emptied slot takes its weight away.
pub proof fn lemma_total_weight_clear(slots: Seq<Option<StateView>>, i: int)
    requires
        0 <= i < slots.len(),
    ensures
        total_weight(slots.update(i, None)) == total_weight(slots) - slot_weight(slots[i]),
    decreases slots.len(),
{
    let cleared = slots.update(i, None);
    if i == slots.len() - 1 {
        assert(cleared.drop_last() =~= slots.drop_last());
    } else {
        lemma_total_weight_clear(slots.drop_last(), i);
        assert(cleared.drop_last() =~= slots.drop_last().update(i, None));
    }
}

/// A new slot with a state is one more state.
pub proof fn lemma_live_count_push(slots: Seq<Option<StateView>>, slot: Option<StateView>)
    ensures
        live_count(slots.push(slot)) == live_count(slots) + if slot is Some {
            1int
        } else {
            0int
        },
{
    assert(slots.push(slot).drop_last() =~= slots);
}

/// An emptied slot is one state less.
pub proof fn lemma_live_count_clear(slots: Seq<Option<StateView>>, i: int)
    requires
        0 <= i < slots.len(),
        slots[i] is Some,
    ensures
        live_count(slots.update(i, None)) == live_count(slots) - 1,
    decreases slots.len(),
{
    let cleared = slots.update(i, None);
    if i == slots.len() - 1 {
        assert(cleared.drop_last() =~= slots.drop_last());
    } else {
        lemma_live_count_clear(slots.drop_last(), i);
        assert(cleared.drop_last() =~= slots.drop_last().update(i, None));
    }
}

/// The content of a slot.
pub open spec fn slot_view(slot: Option<State>) -> Option<StateView> {
    match slot {
        Some(s) => Some(s@),
        None => None,
    }
}

/// The content of all slots.
spec fn slot_views(slots: Seq<Option<State>>) -> Seq<Option<StateView>> {
    Seq::new(slots.len(), |i: int| slot_view(slots[i]))
}

/// The priority of a state in the frontier.
spec fn priority(v: StateView) -> int {
    128 - v.free.len()
}

/// The queue holds one item for each state in a slot, with the state's
/// priority and the number of its slot, and nothing else. Every state in a
/// slot is valid.
#[verifier::opaque]
spec fn linked(slots: Seq<Option<State>>, items: Multiset<(usize, usize)>) -> bool {
    &&& forall|i: int| 0 <= i < slots.len() && (#[trigger] slots[i]) is Some ==> slots[i]->0.wf()
    &&& forall|item: (usize, usize)| #[trigger] items.count(item) <= 1
    &&& forall|item: (usize, usize)| #[trigger]
        items.contains(item) ==> item.1 < slots.len() && slots[item.1 as int] is Some && item.0 == priority(
            slots[item.1 as int]->0@,
        )
    &&& forall|i: int|
        0 <= i < slots.len() && (#[trigger] slots[i]) is Some ==> items.contains(
            (priority(slots[i]->0@) as usize, i as usize),
        )
    &&& items.len() == live_count(slot_views(slots))
}

/// The content of a list of states.
spec fn state_views(states: Seq<State>) -> Seq<StateView> {
    Seq::new(states.len(), |m: int| states[m]@)
}

/// Whether the fingerprint of a state is not among those recorded.
#[verifier::opaque]
spec fn unseen(seen: Set<u128>, v: StateView) -> bool {
    !seen.contains(fingerprint(v.free) as u128)
}

/// Whether a slot holds one of the states of `kids` from number `from` on
/// whose fingerprint is not recorded.
spec fn slot_from(seen: Set<u128>, slot: Option<StateView>, kids: Seq<StateView>, from: int) -> bool {
    exists|m: int| from <= m < kids.len() && slot == Some(#[trigger] kids[m]) && unseen(seen, kids[m])
}

/// Whether one of the slots from number `base` on holds the state `v`.
spec fn held(slots: Seq<Option<StateView>>, base: int, v: StateView) -> bool {
    exists|j: int| base <= j < slots.len() && #[trigger] slots[j] == Some(v)
}

/// The slots from number `base` on hold the states of `kids` from number
/// `from` on whose fingerprint is not in `seen`, each once.
spec fn enqueued(seen: Set<u128>, base: int, slots: Seq<Option<StateView>>, kids: Seq<StateView>, from: int) -> bool {
    &&& forall|j: int| base <= j < slots.len() ==> slot_from(seen, #[trigger] slots[j], kids, from)
    &&& forall|m: int| from <= m < kids.len() && unseen(seen, #[trigger] kids[m]) ==> held(slots, base, kids[m])
    &&& forall|j: int, k: int| base <= j < k < slots.len() ==> #[trigger] slots[j] != #[trigger] slots[k]
}

proof fn lemma_enqueued_start(seen: Set<u128>, slots: Seq<Option<StateView>>, kids: Seq<StateView>)
    ensures
        enqueued(seen, slots.len() as int, slots, kids, kids.len() as int),
{
}

proof fn lemma_enqueued_step(
    seen: Set<u128>,
    base: int,
    slots: Seq<Option<StateView>>,
    kids: Seq<StateView>,
    m0: int,
    pushed: bool,
)
    requires
        0 <= m0 < kids.len(),
        0 <= base <= slots.len(),
        enqueued(seen, base, slots, kids, m0 + 1),
        forall|m: int, n: int| 0 <= m < n < kids.len() ==> #[trigger] kids[m] != #[trigger] kids[n],
        pushed == unseen(seen, kids[m0]),
    ensures
        enqueued(
            seen,
            base,
            if pushed {
                slots.push(Some(kids[m0]))
            } else {
                slots
            },
            kids,
            m0,
        ),
{
    let after = if pushed {
        slots.push(Some(kids[m0]))
    } else {
        slots
    };
    assert forall|j: int| base <= j < after.len() implies slot_from(seen, #[trigger] after[j], kids, m0) by {
        if j < slots.len() {
            assert(slot_from(seen, slots[j], kids, m0 + 1));
            let m = choose|m: int| m0 + 1 <= m < kids.len() && slots[j] == Some(#[trigger] kids[m]) && unseen(seen, kids[m]);
            assert(after[j] == Some(kids[m]));
        } else {
            assert(after[j] == Some(kids[m0]));
        }
    }
    assert forall|m: int| m0 <= m < kids.len() && unseen(seen, #[trigger] kids[m]) implies held(after, base, kids[m]) by {
        if m == m0 {
            assert(after[slots.len() as int] == Some(kids[m]));
        } else {
            assert(held(slots, base, kids[m]));
            let j = choose|j: int| base <= j < slots.len() && #[trigger] slots[j] == Some(kids[m]);
            assert(after[j] == slots[j]);
        }
    }
    assert forall|j: int, k: int| base <= j < k < after.len() implies #[trigger] after[j] != #[trigger] after[k] by {
        assert(after[j] == slots[j]);
        if k < slots.len() {
            assert(after[k] == slots[k]);
        } else {
            assert(slot_from(seen, slots[j], kids, m0 + 1));
            let m = choose|m: int| m0 + 1 <= m < kids.len() && slots[j] == Some(#[trigger] kids[m]) && unseen(seen, kids[m]);
            assert(kids[m0] != kids[m]);
        }
    }
}

/// A best-first search for a packing of the cube.
pub struct Search {
    slots: Vec<Option<State>>,
    frontier: Frontier,
    seen: FxHashSet<u128>,
    require_touch: bool,
    collisions: usize,
}

impl View for Search {
    type V = SearchView;

    closed spec fn view(&self) -> SearchView {
        SearchView {
            slots: slot_views(self.slots@),
            seen: self.seen@,
            require_touch: self.require_touch,
            collisions: self.collisions as nat,
        }
    }
}

impl Search {
    /// The search is stored consistently.
    pub closed spec fn wf(&self) -> bool {
        linked(self.slots@, heap_items(self.frontier))
    }

    /// Every state in a slot of a valid search is well formed.
    pub proof fn lemma_wf(&self, i: int)
        requires
            self.wf(),
            self@.live(i),
        ensures
            self@.slots[i]->0.well_formed(),
    {
        reveal(linked);
        self.slots@[i]->0.lemma_wf();
    }

    /// A search whose frontier holds the empty cube and which has seen no
    /// state yet.
    pub fn new(require_touch: bool) -> (search: Search)
        ensures
            search.wf(),
            search@.slots == seq![Some(StateView::initial())],
            search@.seen == Set::<u128>::empty(),
            search@.require_touch == require_touch,
            search@.collisions == 0,
    {
        Search::from_state(State::default(), require_touch)
    }

    /// A search whose frontier holds the given state and which has seen no
    /// state yet.
    pub fn from_state(start: State, require_touch: bool) -> (search: Search)
        requires
            start.wf(),
        ensures
            search.wf(),
            search@.slots == seq![Some(start@)],
            search@.seen == Set::<u128>::empty(),
            search@.require_touch == require_touch,
            search@.collisions == 0,
    {
        proof {
            start.lemma_wf();
            lemma_catalog_fills_cube(start@.depth());
        }
        let ghost first = start@;
        let space = start.space_left();
        let mut slots: Vec<Option<State>> = Vec::new();
        slots.push(Some(start));
        let mut frontier = heap_new();
        heap_push(&mut frontier, (128 - space, 0));
        let search = Search { slots, frontier, seen: fx_set_new(), require_touch, collisions: 0 };
        proof {
            reveal(linked);
            assert(search@.slots =~= seq![Some(first)]);
            assert(search@.slots =~= Seq::<Option<StateView>>::empty().push(Some(first)));
            lemma_live_count_push(Seq::<Option<StateView>>::empty(), Some(first));
        }
        search
    }

    /// The number of states in the frontier.
    pub fn frontier_len(&self) -> (n: usize)
        requires
            self.wf(),
        ensures
            n == live_count(self@.slots),
    {
        proof {
            reveal(linked);
        }
        heap_len(&self.frontier)
    }

    /// The number of successors that were dropped because their fingerprint
    /// was recorded.
    pub fn collisions(&self) -> (n: usize)
        ensures
            n == self@.collisions,
    {
        self.collisions
    }

    fn push_state(&mut self, kid: State)
        requires
            linked(old(self).slots@, heap_items(old(self).frontier)),
            kid.wf(),
        ensures
            linked(final(self).slots@, heap_items(final(self).frontier)),
            final(self)@.slots == old(self)@.slots.push(Some(kid@)),
            final(self)@.seen == old(self)@.seen,
            final(self)@.require_touch == old(self)@.require_touch,
            final(self)@.collisions == old(self)@.collisions,
    {
        let ghost prior = self@;
        let ghost prior_slots = self.slots@;
        let ghost prior_items = heap_items(self.frontier);
        proof {
            reveal(linked);
            kid.lemma_wf();
            lemma_catalog_fills_cube(kid@.depth());
        }
        let prio = 128 - kid.space_left();
        let j = self.slots.len();
        let ghost kid_view = kid@;
        self.slots.push(Some(kid));
        heap_push(&mut self.frontier, (prio, j));
        proof {
            reveal(linked);
            let item = (prio, j);
            assert(prior_items.count(item) == 0) by {
                if prior_items.count(item) > 0 {
                    assert(prior_items.contains(item));
                }
            }
            assert forall|it: (usize, usize)| #[trigger] heap_items(self.frontier).contains(it) implies it.1
                < self.slots@.len() && self.slots@[it.1 as int] is Some && it.0 == priority(
                self.slots@[it.1 as int]->0@,
            ) by {
                if it != item {
                    assert(prior_items.contains(it));
                    assert(self.slots@[it.1 as int] == prior_slots[it.1 as int]);
                }
            }
            assert forall|i: int| 0 <= i < self.slots@.len() && (#[trigger] self.slots@[i]) is Some implies heap_items(
                self.frontier,
            ).contains((priority(self.slots@[i]->0@) as usize, i as usize)) by {
                if i < prior_slots.len() {
                    assert(self.slots@[i] == prior_slots[i]);
                    assert(prior_items.contains((priority(prior_slots[i]->0@) as usize, i as usize)));
                }
            }
            assert forall|i: int| 0 <= i < self.slots@.len() && (#[trigger] self.slots@[i]) is Some implies self.slots@[i]->0.wf() by {
                if i < prior_slots.len() {
                    assert(self.slots@[i] == prior_slots[i]);
                }
            }
            assert(self@.slots =~= prior.slots.push(Some(kid_view)));
            lemma_live_count_push(prior.slots, Some(kid_view));
        }
    }

    fn enqueue(&mut self, kids: Vec<State>, Ghost(unit): Ghost<int>)
        requires
            linked(old(self).slots@, heap_items(old(self).frontier)),
            kids.len() <= 750,
            unit >= 1,
            forall|m: int| 0 <= m < kids.len() ==> (#[trigger] kids[m]).wf() && slot_weight(Some(kids[m]@)) == unit,
            forall|m: int, n: int| 0 <= m < n < kids.len() ==> (#[trigger] kids[m])@ != (#[trigger] kids[n])@,
        ensures
            linked(final(self).slots@, heap_items(final(self).frontier)),
            final(self)@.seen == old(self)@.seen,
            final(self)@.require_touch == old(self)@.require_touch,
            final(self)@.slots.len() >= old(self)@.slots.len(),
            final(self)@.slots.take(old(self)@.slots.len() as int) == old(self)@.slots,
            enqueued(old(self)@.seen, old(self)@.slots.len() as int, final(self)@.slots, state_views(kids@), 0),
            total_weight(final(self)@.slots) <= total_weight(old(self)@.slots) + 750 * unit,
            final(self)@.collisions == saturated(
                old(self)@.collisions + kids.len() - (final(self)@.slots.len() - old(self)@.slots.len()),
            ),
    {
        broadcast use axiom_u128_obeys_hash_table_key_model;

        let ghost all = kids@;
        let ghost views = state_views(kids@);
        let ghost before = self@;
        let ghost base = self.slots@.len() as int;
        let mut kids = kids;
        proof {
            assert(self@.slots.take(base) =~= before.slots);
            assert(0 * unit == 0) by (nonlinear_arith);
            lemma_enqueued_start(before.seen, before.slots, views);
        }
        while kids.len() > 0
            invariant
                linked(self.slots@, heap_items(self.frontier)),
                self@.seen == before.seen,
                self@.require_touch == before.require_touch,
                base == before.slots.len(),
                unit >= 1,
                all.len() <= 750,
                kids@ == all.take(kids.len() as int),
                kids.len() <= all.len(),
                views == state_views(all),
                forall|m: int| 0 <= m < all.len() ==> (#[trigger] all[m]).wf() && slot_weight(Some(all[m]@)) == unit,
                forall|m: int, n: int| 0 <= m < n < views.len() ==> #[trigger] views[m] != #[trigger] views[n],
                self@.slots.len() >= base,
                self@.slots.take(base) == before.slots,
                enqueued(before.seen, base, self@.slots, views, kids.len() as int),
                total_weight(self@.slots) <= total_weight(before.slots) + (all.len() - kids.len()) * unit,
                self@.slots.len() - base <= all.len() - kids.len(),
                self@.collisions == saturated(
                    before.collisions + (all.len() - kids.len()) - (self@.slots.len() - base),
                ),
            decreases kids.len(),
        {
            let ghost m0 = kids.len() - 1;
            let ghost prior = self@;
            let kid = match kids.pop() {
                Some(kid) => kid,
                None => unreached(),
            };
            proof {
                assert(kid == all[m0]);
                assert(views[m0] == kid@);
                assert(kids@ =~= all.take(m0));
                assert((all.len() - m0) * unit == (all.len() - (m0 + 1)) * unit + unit) by (nonlinear_arith);
            }
            let kh = kid.hash();
            proof {
                reveal(unseen);
            }
            if !fx_set_contains(&self.seen, &kh) {
                self.push_state(kid);
                proof {
                    lemma_total_weight_push(prior.slots, Some(views[m0]));
                    assert(self@.slots.take(base) =~= prior.slots.take(base));
                    lemma_enqueued_step(before.seen, base, prior.slots, views, m0, true);
                }
            } else {
                if self.collisions < usize::MAX {
                    self.collisions = self.collisions + 1;
                }
                proof {
                    assert(self@.slots =~= prior.slots);
                    lemma_enqueued_step(before.seen, base, prior.slots, views, m0, false);
                }
            }
        }
        proof {
            assert((all.len() - 0) * unit <= 750 * unit) by (nonlinear_arith)
                requires
                    all.len() <= 750,
                    unit >= 1,
            ;
        }
    }

    fn take_best(&mut self) -> (r: Option<(State, Ghost<int>)>)
        requires
            linked(old(self).slots@, heap_items(old(self).frontier)),
        ensures
            linked(final(self).slots@, heap_items(final(self).frontier)),
            final(self)@.seen == old(self)@.seen,
            final(self)@.require_touch == old(self)@.require_touch,
            final(self)@.collisions == old(self)@.collisions,
            match r {
                Some((state, i)) => {
                    &&& old(self)@.best(i@)
                    &&& old(self)@.slots[i@] == Some(state@)
                    &&& state.wf()
                    &&& final(self)@.slots == old(self)@.slots.update(i@, None)
                },
                None => old(self)@.exhausted() && final(self)@ == old(self)@,
            },
    {
        let ghost before = self@;
        let ghost slots0 = self.slots@;
        let ghost items0 = heap_items(self.frontier);
        proof {
            reveal(linked);
            assert forall|j: int| #[trigger] before.live(j) implies slots0[j] is Some && slots0[j]->0@.free.len() <= 125
                && items0.contains((priority(slots0[j]->0@) as usize, j as usize)) by {
                assert(slots0[j] is Some);
                slots0[j]->0.lemma_wf();
                lemma_catalog_fills_cube(slots0[j]->0@.depth());
            }
        }
        let item = match heap_pop(&mut self.frontier) {
            Some(item) => item,
            None => {
                return None;
            },
        };
        let idx = item.1;
        let mut taken: Option<State> = None;
        std::mem::swap(&mut taken, &mut self.slots[idx]);
        let state = match taken {
            Some(state) => state,
            None => unreached(),
        };
        proof {
            let items1 = heap_items(self.frontier);
            let slots1 = self.slots@;
            assert(slots1 == slots0.update(idx as int, None));
            assert(items0.count(item) == 1);
            assert(items1.count(item) == 0);
            assert forall|it: (usize, usize)| #[trigger] items1.contains(it) implies it.1 < slots1.len() && slots1[it.1 as int] is Some
                && it.0 == priority(slots1[it.1 as int]->0@) by {
                assert(items0.contains(it));
                if it.1 == idx {
                    slots0[idx as int]->0.lemma_wf();
                    lemma_catalog_fills_cube(slots0[idx as int]->0@.depth());
                    assert(it == item);
                }
            }
            assert forall|i: int| 0 <= i < slots1.len() && (#[trigger] slots1[i]) is Some implies items1.contains(
                (priority(slots1[i]->0@) as usize, i as usize),
            ) by {
                assert(slots1[i] == slots0[i]);
                assert(before.live(i));
                let it = (priority(slots0[i]->0@) as usize, i as usize);
                assert(items0.contains(it));
                assert(slots1.len() == self.slots.len());
                assert(it.1 != item.1);
                assert(items1.count(it) == items0.count(it));
            }
            assert forall|i: int| 0 <= i < slots1.len() && (#[trigger] slots1[i]) is Some implies slots1[i]->0.wf() by {
                assert(slots1[i] == slots0[i]);
            }
            assert(self@.slots =~= before.slots.update(idx as int, None));
            lemma_live_count_clear(before.slots, idx as int);
            assert forall|j: int| #[trigger] before.live(j) implies before.slots[idx as int]->0.free.len()
                <= before.slots[j]->0.free.len() by {
                assert(items0.contains((priority(slots0[j]->0@) as usize, j as usize)));
                assert(pair_le((priority(slots0[j]->0@) as usize, j as usize), item));
            }
            assert(before.live(idx as int));
        }
        Some((state, Ghost(idx as int)))
    }

    /// One step of the search. Takes a state with the fewest free cells
    /// from the frontier and records its fingerprint. If the state has no
    /// free cell it is returned as the solution. Otherwise its successors
    /// whose fingerprint is not recorded are added to the frontier. When the
    /// frontier is empty nothing changes.
    pub fn step(&mut self) -> (r: Step)
        requires
            old(self).wf(),
        ensures
            final(self).wf(),
            final(self)@.weight() >= 0,
            match r {
                Step::Exhausted => old(self)@.exhausted() && final(self)@ == old(self)@,
                Step::Solved(s) => {
                    &&& s.wf()
                    &&& s@.solved()
                    &&& final(self)@.weight() < old(self)@.weight()
                    &&& final(self)@.collisions == old(self)@.collisions
                    &&& exists|i: int| #[trigger]
                        old(self)@.took(final(self)@, i) && old(self)@.slots[i] == Some(s@) && final(self)@.slots.len()
                            == old(self)@.slots.len()
                },
                Step::Running { placements, space_left } => {
                    &&& final(self)@.weight() < old(self)@.weight()
                    &&& exists|i: int| #[trigger]
                        old(self)@.expanded(final(self)@, i) && !old(self)@.slots[i]->0.solved() && placements
                            == old(self)@.slots[i]->0.depth() && space_left == old(self)@.slots[i]->0.free.len()
                },
            },
    {
        broadcast use axiom_u128_obeys_hash_table_key_model;

        let ghost before = self@;
        let (state, idx) = match self.take_best() {
            Some(found) => found,
            None => {
                proof {
                    lemma_total_weight_bound(self@.slots);
                }
                return Step::Exhausted;
            },
        };
        let ghost i = idx@;
        let ghost parent = state@;
        let hash = state.hash();
        fx_set_insert(&mut self.seen, hash);
        let space_left = state.space_left();
        let ghost middle = self@;
        proof {
            state.lemma_wf();
            lemma_total_weight_clear(before.slots, i);
            lemma_total_weight_bound(middle.slots);
            lemma_depth_weight_positive(parent.depth());
            assert(middle.slots.take(before.slots.len() as int) =~= before.slots.update(i, None));
            assert(before.took(middle, i));
        }
        if space_left == 0 {
            return Step::Solved(state);
        }
        let placements = state.placements().len();
        let kids = match state.successors(self.require_touch) {
            Ok(kids) => kids,
            Err(_) => {
                proof {
                    lemma_solved_depth(parent);
                }
                unreached()
            },
        };
        let ghost views = state_views(kids@);
        let ghost unit = depth_weight(parent.depth() + 1);
        proof {
            lemma_depth_weight_positive(parent.depth() + 1);
            assert forall|m: int, n: int| 0 <= m < n < kids.len() implies (#[trigger] kids[m])@ != (#[trigger] kids[n])@ by {
                assert(kids[m]@.placements.last() != kids[n]@.placements.last());
            }
        }
        self.enqueue(kids, Ghost(unit));
        proof {
            let after = self@;
            let base = before.slots.len() as int;
            reveal(unseen);
            lemma_total_weight_bound(after.slots);
            assert(after.slots.take(base) =~= before.slots.update(i, None)) by {
                assert(after.slots.take(middle.slots.len() as int) == middle.slots);
            }
            assert forall|j: int| base <= j < after.slots.len() implies (#[trigger] after.slots[j]) is Some && is_child(
                parent,
                after.slots[j]->0,
                before.require_touch,
            ) && !after.seen.contains(fingerprint(after.slots[j]->0.free) as u128) by {
                assert(slot_from(middle.seen, after.slots[j], views, 0));
                let m = choose|m: int| 0 <= m < views.len() && after.slots[j] == Some(#[trigger] views[m]) && unseen(middle.seen, views[m]);
                assert(views[m] == kids[m]@);
            }
            assert forall|p: Placement| #[trigger]
                parent.legal(p, before.require_touch) && !after.seen.contains(fingerprint(parent.place(p).free) as u128)
                implies exists|j: int| base <= j < after.slots.len() && #[trigger] after.slots[j] == Some(parent.place(p)) by {
                let m = choose|m: int| 0 <= m < kids.len() && (#[trigger] kids[m])@ == parent.place(p);
                assert(views[m] == kids[m]@);
                assert(unseen(middle.seen, views[m]));
                assert(held(after.slots, base, views[m]));
            }
            assert(before.expanded(after, i));
        }
        Step::Running { placements, space_left }
    }

    /// Runs the search to its end: steps until a step takes a state with no
    /// free cell, which is returned, or finds the frontier empty, which gives
    /// `None`. A state that is returned has all seventeen bricks placed.
    pub fn run(&mut self) -> (r: Option<State>)
        requires
            old(self).wf(),
        ensures
            final(self).wf(),
            run_outcome(old(self)@, final(self)@, slot_view(r)),
            match r {
                Some(s) => s.wf() && s@.solved() && s@.depth() == 17,
                None => final(self)@.exhausted(),
            },
    {
        let ghost start = self@;
        let ghost mut trace: Seq<SearchView> = seq![self@];
        proof {
            lemma_total_weight_bound(self@.slots);
        }
        loop
            invariant
                self.wf(),
                self@.weight() >= 0,
                is_run(trace),
                start == old(self)@,
                trace[0] == start,
                trace.last() == self@,
            decreases self@.weight(),
        {
            let ghost before = self@;
            match self.step() {
                Step::Running { placements, space_left } => {
                    proof {
                        let i = choose|i: int| #[trigger]
                            before.expanded(self@, i) && !before.slots[i]->0.solved() && placements
                                == before.slots[i]->0.depth() && space_left == before.slots[i]->0.free.len();
                        assert(before.expanded(self@, i) && !before.slots[i]->0.solved());
                        assert(before.steps_to(self@));
                        lemma_run_extends(trace, self@);
                        trace = trace.push(self@);
                    }
                },
                Step::Solved(s) => {
                    proof {
                        s.lemma_wf();
                        lemma_solved_depth(s@);
                        let i = choose|i: int| #[trigger]
                            before.took(self@, i) && before.slots[i] == Some(s@) && self@.slots.len()
                                == before.slots.len();
                        assert(before.took(self@, i) && before.slots[i] == Some(s@) && s@.solved() && self@.slots.len()
                            == before.slots.len() && self@.collisions == before.collisions);
                        assert(before.solves_to(self@, s@));
                        assert(is_run(trace) && trace[0] == start && trace.last().solves_to(self@, s@));
                        assert(run_outcome(start, self@, Some(s@)));
                    }
                    return Some(s);
                },
                Step::Exhausted => {
                    proof {
                        assert(is_run(trace) && trace[0] == start && trace.last() == self@ && self@.exhausted());
                        assert(run_outcome(start, self@, None));
                    }
                    return None;
                },
            }
        }
    }
}

/// Searches for a packing of the cube with the seventeen bricks of the
/// catalog: runs a search that starts from the empty cube to its end. The
/// result is the state with no free cell that the run took from the
/// frontier, with every brick placed, or `None` when the run emptied the
/// frontier without taking such a state.
pub fn solve(require_touch: bool) -> (r: Option<State>)
    ensures
        exists|end: SearchView| #[trigger] run_outcome(SearchView::start(require_touch), end, slot_view(r)),
        r matches Some(s) ==> s.wf() && s@.solved() && s@.depth() == 17,
{
    let mut search = Search::new(require_touch);
    assert(search@ == SearchView::start(require_touch));
    let r = search.run();
    assert(run_outcome(SearchView::start(require_touch), search@, slot_view(r)));
    r
}

} // verus!
