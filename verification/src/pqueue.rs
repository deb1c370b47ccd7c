//! Trusted interface to the outside priority queue used by the solver: node
//! identifiers keyed by a signed priority, popped greatest-priority first.

use priority_queue::PriorityQueue;
use vstd::prelude::*;

verus! {

/// The queue the solver drives. It wraps the outside priority queue; Verus
/// sees it only through [`pq_contents`] and the contracts below.
#[verifier::external_body]
pub struct SolverQueue {
    inner: PriorityQueue<u32, i64>,
}

/// The contents of a solver queue: each queued node identifier mapped to its
/// current priority.
pub uninterp spec fn pq_contents(q: SolverQueue) -> Map<u32, i64>;

/// The contents of a queue with nothing in it.
pub open spec fn pq_empty() -> Map<u32, i64> {
    Map::empty()
}

impl View for SolverQueue {
    type V = Map<u32, i64>;

    open spec fn view(&self) -> Map<u32, i64> {
        pq_contents(*self)
    }
}

impl SolverQueue {
    /// Relies on priority_queue::PriorityQueue::with_capacity: creates an
    /// empty queue with room for the given number of items.
    #[verifier::external_body]
    pub fn with_capacity(capacity: usize) -> (queue: SolverQueue)
        ensures
            queue@ == pq_empty(),
    {
        SolverQueue { inner: PriorityQueue::with_capacity(capacity) }
    }

    /// Relies on priority_queue::PriorityQueue::push: inserts the item with
    /// the given priority, or replaces the priority of an already present
    /// item.
    #[verifier::external_body]
    pub fn push(&mut self, item: u32, priority: i64)
        ensures
            pq_contents(*final(self)) == pq_contents(*old(self)).insert(item, priority),
    {
        self.inner.push(item, priority);
    }

    /// Relies on priority_queue::PriorityQueue::pop: removes and returns an
    /// item with the greatest priority, or None when the queue is empty.
    #[verifier::external_body]
    pub fn pop(&mut self) -> (r: Option<(u32, i64)>)
        ensures
            pq_contents(*old(self)) == pq_empty() ==> r is None && pq_contents(
                *final(self),
            ) == pq_contents(*old(self)),
            pq_contents(*old(self)) != pq_empty() ==> (r matches Some(p)
                && pq_contents(*old(self)).dom().contains(p.0) && pq_contents(*old(self))[p.0]
                == p.1 && (forall|x: u32|
                pq_contents(*old(self)).dom().contains(x) ==> pq_contents(*old(self))[x] <= p.1)
                && pq_contents(*final(self)) == pq_contents(*old(self)).remove(p.0)),
    {
        self.inner.pop()
    }

    /// Relies on priority_queue::PriorityQueue::change_priority: sets the
    /// priority of a present item, returning the old one; an absent item
    /// leaves the queue unchanged.
    #[verifier::external_body]
    pub fn change_priority(&mut self, item: u32, priority: i64) -> (r: Option<i64>)
        ensures
            pq_contents(*old(self)).dom().contains(item) ==> pq_contents(*final(self))
                == pq_contents(*old(self)).insert(item, priority) && r == Some(
                pq_contents(*old(self))[item],
            ),
            !pq_contents(*old(self)).dom().contains(item) ==> pq_contents(*final(self))
                == pq_contents(*old(self)) && r is None,
    {
        self.inner.change_priority(&item, priority)
    }
}

} // verus!
