//! The priority frontier of the heuristic search: `priority-queue`'s
//! `PriorityQueue` holding flat cell indices prioritised by a
//! `Reverse`-wrapped cost estimate, so that the smallest estimate is popped
//! first. The queue itself is opaque to the verifier; what it holds is
//! named by [`frontier_entries`] — a map from queued item to its estimate —
//! and that map is the view every method contract speaks over.

use vstd::prelude::*;
use priority_queue::PriorityQueue;
use core::cmp::Reverse;
use rustc_hash::FxBuildHasher;

verus! {

/// priority-queue's `PriorityQueue`, declared opaquely: no contract looks
/// inside a queue value.
#[verifier::external_type_specification]
#[verifier::external_body]
#[verifier::reject_recursive_types(I)]
#[verifier::reject_recursive_types(P)]
#[verifier::reject_recursive_types(H)]
pub struct ExPriorityQueue<I, P, H>(PriorityQueue<I, P, H>);

/// std's `Reverse` ordering adaptor, used only as the queue's priority type;
/// values of it never cross the wrapper boundary.
#[verifier::external_type_specification]
#[verifier::external_body]
#[verifier::reject_recursive_types(T)]
pub struct ExReverse<T>(Reverse<T>);

/// What a queue holds: each queued cell index mapped to its current
/// estimate (the value inside the `Reverse` priority).
pub uninterp spec fn frontier_entries(
    q: PriorityQueue<usize, Reverse<u128>, FxBuildHasher>,
) -> Map<usize, u128>;

/// An empty frontier's view.
pub open spec fn no_entries() -> Map<usize, u128> {
    Map::empty()
}

/// The frontier: cell indices prioritised by ascending cost estimate.
/// Its view is the map of queued entries.
pub struct Frontier {
    /// The underlying queue; touched only by the trusted methods below.
    pub inner: PriorityQueue<usize, Reverse<u128>, FxBuildHasher>,
}

impl View for Frontier {
    type V = Map<usize, u128>;

    open spec fn view(&self) -> Map<usize, u128> {
        frontier_entries(self.inner)
    }
}

impl Frontier {
    /// Relies on `PriorityQueue::with_default_hasher`: a new queue holds
    /// nothing.
    #[verifier::external_body]
    pub(crate) fn new() -> (r: Frontier)
        ensures
            r@ == no_entries(),
    {
        Frontier { inner: PriorityQueue::with_default_hasher() }
    }

    /// Relies on `PriorityQueue::is_empty`: true exactly when nothing is
    /// queued.
    #[verifier::external_body]
    pub(crate) fn is_empty(&self) -> (r: bool)
        ensures
            r == (frontier_entries(self.inner) == no_entries()),
    {
        self.inner.is_empty()
    }

    /// Relies on `PriorityQueue::push_increase` under the `Reverse`
    /// ordering: an absent item is inserted with the given estimate; a
    /// present item's estimate is lowered to the given one when that is
    /// smaller, and is never raised.
    #[verifier::external_body]
    pub(crate) fn push_improve(&mut self, item: usize, estimate: u128)
        ensures
            final(self)@ == if old(self)@.contains_key(item) && old(self)@[item] <= estimate {
                old(self)@
            } else {
                old(self)@.insert(item, estimate)
            },
    {
        self.inner.push_increase(item, Reverse(estimate));
    }

    /// Relies on `PriorityQueue::pop` under the `Reverse` ordering: a
    /// non-empty queue yields and removes an entry whose estimate is
    /// minimal among the queued ones (ties broken by the heap's layout);
    /// an empty queue yields nothing and stays empty.
    #[verifier::external_body]
    pub(crate) fn pop(&mut self) -> (r: Option<(usize, u128)>)
        ensures
            r is None ==> final(self)@ == old(self)@,
            r matches Some(p) ==> final(self)@ == old(self)@.remove(p.0),
            r matches Some(p) ==> old(self)@.contains_key(p.0) && old(self)@[p.0] == p.1 && (forall|
                j: usize,
            |
                #[trigger] old(self)@.contains_key(j) ==> p.1 <= old(self)@[j]),
            r is None ==> old(self)@ == no_entries(),
    {
        match self.inner.pop() {
            Some((i, Reverse(p))) => Some((i, p)),
            None => None,
        }
    }
}

} // verus!
