//! The bounded queue that a subscription keeps its messages in.
//!
//! The queue is a `crossbeam::queue::ArrayQueue` of message tokens. Verus
//! cannot look inside it, so what it holds and the capacity it was made
//! with are given names, and every call into it goes through one of the
//! functions below. Their contracts are taken from the queue's
//! documentation and are not proved here. Each takes the queue by
//! exclusive reference, so no other thread can change it during the call.

use crossbeam::queue::ArrayQueue;
use vstd::prelude::*;

verus! {

/// `crossbeam::queue::ArrayQueue`, as a type whose values are carried
/// about and never looked into.
#[verifier::external_type_specification]
#[verifier::external_body]
#[verifier::reject_recursive_types(T)]
pub struct ExArrayQueue<T>(ArrayQueue<T>);

/// The messages in a queue, oldest first.
pub uninterp spec fn queue_items(queue: ArrayQueue<u64>) -> Seq<u64>;

/// The capacity that a queue was made with.
pub uninterp spec fn queue_capacity(queue: ArrayQueue<u64>) -> nat;

/// `ArrayQueue::new`: an empty queue that holds up to `capacity` messages.
/// The call panics for a capacity of zero or one too large to be rounded
/// up to a power of two.
#[verifier::external_body]
pub(crate) fn queue_new(capacity: usize) -> (queue: ArrayQueue<u64>)
    requires
        0 < capacity <= usize::MAX / 2,
    ensures
        queue_items(queue) == Seq::<u64>::empty(),
        queue_capacity(queue) == capacity,
{
    ArrayQueue::new(capacity)
}

/// `ArrayQueue::push`: appends `value` unless the queue is full; a full
/// queue stays as it is and hands `value` back.
#[verifier::external_body]
pub(crate) fn queue_push(queue: &mut ArrayQueue<u64>, value: u64) -> (pushed: Result<(), u64>)
    ensures
        queue_capacity(*final(queue)) == queue_capacity(*old(queue)),
        pushed == if queue_items(*old(queue)).len() < queue_capacity(*old(queue)) {
            Ok::<(), u64>(())
        } else {
            Err::<(), u64>(value)
        },
        queue_items(*final(queue)) == if queue_items(*old(queue)).len() < queue_capacity(
            *old(queue),
        ) {
            queue_items(*old(queue)).push(value)
        } else {
            queue_items(*old(queue))
        },
{
    queue.push(value)
}

/// `ArrayQueue::force_push`: appends `value`; where the queue is full the
/// oldest message makes room for it and is handed back.
#[verifier::external_body]
pub(crate) fn queue_force_push(queue: &mut ArrayQueue<u64>, value: u64) -> (displaced: Option<u64>)
    ensures
        queue_capacity(*final(queue)) == queue_capacity(*old(queue)),
        displaced == if queue_items(*old(queue)).len() < queue_capacity(*old(queue)) {
            None::<u64>
        } else {
            Some(queue_items(*old(queue)).first())
        },
        queue_items(*final(queue)) == if queue_items(*old(queue)).len() < queue_capacity(
            *old(queue),
        ) {
            queue_items(*old(queue)).push(value)
        } else {
            queue_items(*old(queue)).drop_first().push(value)
        },
{
    queue.force_push(value)
}

/// `ArrayQueue::pop`: takes out the oldest message, or gives `None` where
/// the queue is empty.
#[verifier::external_body]
pub(crate) fn queue_pop(queue: &mut ArrayQueue<u64>) -> (popped: Option<u64>)
    ensures
        queue_capacity(*final(queue)) == queue_capacity(*old(queue)),
        popped == if queue_items(*old(queue)).len() == 0 {
            None::<u64>
        } else {
            Some(queue_items(*old(queue)).first())
        },
        queue_items(*final(queue)) == if queue_items(*old(queue)).len() == 0 {
            queue_items(*old(queue))
        } else {
            queue_items(*old(queue)).drop_first()
        },
{
    queue.pop()
}

} // verus!
