use vstd::prelude::*;
use circular_queue::CircularQueue;

verus! {

/// The bounded queue of circular_queue, holding lookup depths here.
#[verifier::external_type_specification]
#[verifier::external_body]
#[verifier::reject_recursive_types(T)]
pub struct ExCircularQueue<T>(CircularQueue<T>);

/// The samples that a depth queue holds, oldest first.
pub uninterp spec fn queued_depths(q: CircularQueue<usize>) -> Seq<usize>;

/// The capacity that a depth queue was made with.
pub uninterp spec fn queue_capacity(q: CircularQueue<usize>) -> nat;

/// The samples after pushing `x`: the oldest one leaves once `cap` are held,
/// and a queue of capacity zero keeps nothing.
pub open spec fn after_push(s: Seq<usize>, cap: nat, x: usize) -> Seq<usize> {
    if cap == 0 {
        s
    } else if s.len() < cap {
        s.push(x)
    } else {
        s.drop_first().push(x)
    }
}

/// Relies on CircularQueue::with_capacity: an empty queue of that capacity.
#[verifier::external_body]
pub(crate) fn new_depth_queue(capacity: usize) -> (q: CircularQueue<usize>)
    ensures
        queued_depths(q) == Seq::<usize>::empty(),
        queue_capacity(q) == capacity,
{
    CircularQueue::with_capacity(capacity)
}

/// Relies on CircularQueue::push: appends, overwriting the oldest item once
/// the queue is full; the capacity stays.
#[verifier::external_body]
pub(crate) fn push_depth(q: &mut CircularQueue<usize>, x: usize)
    ensures
        queue_capacity(*final(q)) == queue_capacity(*old(q)),
        queued_depths(*final(q)) == after_push(
            queued_depths(*old(q)),
            queue_capacity(*old(q)),
            x,
        ),
{
    q.push(x);
}

/// Relies on CircularQueue::asc_iter: the items from the oldest to the newest.
#[verifier::external_body]
pub(crate) fn depths_oldest_first(q: &CircularQueue<usize>) -> (r: Vec<usize>)
    ensures
        r@ == queued_depths(*q),
{
    q.asc_iter().copied().collect()
}

} // verus!
