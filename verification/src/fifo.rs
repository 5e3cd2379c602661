//! The FIFO queue of the `queues` crate, taken on trust.
//!
//! The region-growing mutation traverses pixels breadth-first through a
//! `queues::Queue<usize>`.  Its contents are named by [`fifo_contents`]; each
//! wrapper states over that name what the crate's source shows.

use vstd::prelude::*;
use queues::IsQueue;

verus! {

#[verifier::external_type_specification]
#[verifier::external_body]
#[verifier::reject_recursive_types(T)]
pub struct ExQueue<T: Clone>(queues::Queue<T>);

/// The pixel indices held by a queue, oldest first.
pub uninterp spec fn fifo_contents(q: &queues::Queue<usize>) -> Seq<usize>;

/// Relies on queues::Queue::new: a fresh queue is empty.
#[verifier::external_body]
pub fn fifo_new() -> (q: queues::Queue<usize>)
    ensures
        fifo_contents(&q) == Seq::<usize>::empty(),
{
    queues::Queue::new()
}

/// Relies on queues::Queue::add: the value is appended at the back and the
/// call always succeeds.
#[verifier::external_body]
pub fn fifo_add(q: &mut queues::Queue<usize>, v: usize)
    ensures
        fifo_contents(final(q)) == fifo_contents(old(q)).push(v),
{
    let _ = q.add(v);
}

/// Relies on queues::Queue::remove: the oldest element is taken from the
/// front; on an empty queue the call only errs, which the precondition
/// rules out.
#[verifier::external_body]
pub fn fifo_remove(q: &mut queues::Queue<usize>) -> (r: usize)
    requires
        fifo_contents(old(q)).len() > 0,
    ensures
        r == fifo_contents(old(q))[0],
        fifo_contents(final(q)) == fifo_contents(old(q)).drop_first(),
{
    q.remove().unwrap()
}

/// Relies on queues::Queue::size: the element count of the queue.
#[verifier::external_body]
pub fn fifo_size(q: &queues::Queue<usize>) -> (r: usize)
    ensures
        r == fifo_contents(q).len(),
{
    q.size()
}

} // verus!
