//! A bounded subscription: one reader, any number of producers, and a
//! queue of fixed capacity between them.
//!
//! A producer delivers through a [`Callback`], which follows one of two
//! policies when the queue is full: the conservative one drops the new
//! message, the forceful one drops the oldest. A delivery tells the
//! producer whether to go on and tells the caller whether a waiting reader
//! is to be woken. Waiting itself is the caller's business:
//! [`Subscriber::recv_step`] says whether there is anything to wait for.
//!
//! An [`UnboundedSubscription`] is made of any number of bounded ones. A
//! reader takes the next message from whichever of them has one, trying
//! them in turn, so that the messages of one source stay in order and no
//! source is passed over for ever.

use crate::history::last_items;
use crate::ring::queue_capacity;
use crate::ring::queue_force_push;
use crate::ring::queue_items;
use crate::ring::queue_new;
use crate::ring::queue_pop;
use crate::ring::queue_push;
use crossbeam::queue::ArrayQueue;
use std::ops::ControlFlow;
use vstd::prelude::*;

verus! {

/// What a producer does with a message that finds the queue full.
#[derive(Clone, Copy, Debug, PartialEq, Eq, Structural)]
pub enum Policy {
    /// The new message is dropped.
    Conservative,
    /// The oldest message is dropped.
    Force,
}

/// A producer's handle on a subscription.
#[derive(Clone, Copy, Debug, PartialEq, Eq, Structural)]
pub struct Callback {
    pub policy: Policy,
}

/// What a delivery came to.
#[derive(Debug)]
pub struct Delivery {
    /// `Break` tells the producer that the reader is gone and that it may
    /// forget the callback.
    pub flow: ControlFlow<()>,
    /// A reader that waits for a message is to be woken.
    pub notify: bool,
    /// The message that had to go because the queue was full: the new one
    /// under the conservative policy, the oldest under the forceful one.
    pub dropped: Option<u64>,
}

/// What a reader finds when it looks for a message.
#[derive(Clone, Copy, Debug, PartialEq, Eq, Structural)]
pub enum RecvStep {
    /// The oldest message.
    Ready(u64),
    /// The queue is empty and no producer is left to fill it.
    Closed,
    /// The queue is empty; a producer may yet deliver.
    Wait,
}

/// A subscription as a mathematical value.
pub struct SubscriberView {
    /// The messages that wait to be read, oldest first.
    pub items: Seq<u64>,
    pub capacity: nat,
    /// The number of callbacks that have been made and not released.
    pub producers: nat,
    /// The reader has not gone away.
    pub open: bool,
}

/// The queue after `value` was delivered conservatively.
pub open spec fn spec_push(items: Seq<u64>, capacity: nat, value: u64) -> Seq<u64> {
    if items.len() < capacity {
        items.push(value)
    } else {
        items
    }
}

/// The queue after `value` was delivered forcefully.
pub open spec fn spec_force_push(items: Seq<u64>, capacity: nat, value: u64) -> Seq<u64> {
    if items.len() < capacity {
        items.push(value)
    } else {
        items.drop_first().push(value)
    }
}

impl SubscriberView {
    /// The subscription after `callback` delivered `value`.
    pub open spec fn delivered(self, callback: Callback, value: u64) -> SubscriberView {
        if !self.open {
            self
        } else {
            SubscriberView {
                items: match callback.policy {
                    Policy::Conservative => spec_push(self.items, self.capacity, value),
                    Policy::Force => spec_force_push(self.items, self.capacity, value),
                },
                ..self
            }
        }
    }

    /// A delivery wakes a reader where it makes the queue longer.
    pub open spec fn notifies(self) -> bool {
        self.open && self.items.len() < self.capacity
    }

    /// The message that a delivery of `value` through `callback` pushes
    /// out of a full queue.
    pub open spec fn drops(self, callback: Callback, value: u64) -> Option<u64> {
        if !self.open || self.items.len() < self.capacity {
            None
        } else {
            match callback.policy {
                Policy::Conservative => Some(value),
                Policy::Force => Some(self.items.first()),
            }
        }
    }
}

/// The reader's side of a subscription, with the queue itself.
pub struct Subscriber {
    queue: ArrayQueue<u64>,
    producers: usize,
    open: bool,
}

impl View for Subscriber {
    type V = SubscriberView;

    closed spec fn view(&self) -> SubscriberView {
        SubscriberView {
            items: queue_items(self.queue),
            capacity: queue_capacity(self.queue),
            producers: self.producers as nat,
            open: self.open,
        }
    }
}

impl Subscriber {
    /// The invariant of a subscription: the queue is not over-full.
    pub open spec fn wf(&self) -> bool {
        0 < self@.capacity && self@.items.len() <= self@.capacity
    }

    /// A subscription whose queue holds up to `max_size` messages.
    pub fn new(max_size: usize) -> (subscriber: Self)
        requires
            0 < max_size <= usize::MAX / 2,
        ensures
            subscriber.wf(),
            subscriber@ == (SubscriberView {
                items: Seq::<u64>::empty(),
                capacity: max_size as nat,
                producers: 0,
                open: true,
            }),
    {
        Subscriber { queue: queue_new(max_size), producers: 0, open: true }
    }

    /// The oldest message, if there is one.
    pub fn try_recv(&mut self) -> (message: Option<u64>)
        requires
            old(self).wf(),
        ensures
            final(self).wf(),
            message == if old(self)@.items.len() == 0 {
                None::<u64>
            } else {
                Some(old(self)@.items.first())
            },
            final(self)@ == (SubscriberView {
                items: if old(self)@.items.len() == 0 {
                    old(self)@.items
                } else {
                    old(self)@.items.drop_first()
                },
                ..old(self)@
            }),
    {
        queue_pop(&mut self.queue)
    }

    /// No producer holds a callback.
    pub fn is_closed(&self) -> (closed: bool)
        ensures
            closed == (self@.producers == 0),
    {
        self.producers == 0
    }

    /// One step of a reader: the oldest message where there is one; else
    /// whether waiting can still bring one.
    pub fn recv_step(&mut self) -> (step: RecvStep)
        requires
            old(self).wf(),
        ensures
            final(self).wf(),
            step == if old(self)@.items.len() > 0 {
                RecvStep::Ready(old(self)@.items.first())
            } else if old(self)@.producers == 0 {
                RecvStep::Closed
            } else {
                RecvStep::Wait
            },
            final(self)@ == (SubscriberView {
                items: if old(self)@.items.len() == 0 {
                    old(self)@.items
                } else {
                    old(self)@.items.drop_first()
                },
                ..old(self)@
            }),
    {
        match queue_pop(&mut self.queue) {
            Some(value) => RecvStep::Ready(value),
            None => if self.producers == 0 {
                RecvStep::Closed
            } else {
                RecvStep::Wait
            },
        }
    }

    fn register(&mut self, policy: Policy) -> (callback: Callback)
        ensures
            callback.policy == policy,
            final(self)@ == (SubscriberView {
                producers: if old(self)@.producers < usize::MAX {
                    old(self)@.producers + 1
                } else {
                    old(self)@.producers
                },
                ..old(self)@
            }),
    {
        if self.producers < usize::MAX {
            self.producers = self.producers + 1;
        }
        Callback { policy }
    }

    /// A callback that drops the new message where the queue is full. The
    /// subscription counts it as a producer until it is released.
    pub fn create_conservative_callback(&mut self) -> (callback: Callback)
        ensures
            callback.policy == Policy::Conservative,
            final(self)@ == (SubscriberView {
                producers: if old(self)@.producers < usize::MAX {
                    old(self)@.producers + 1
                } else {
                    old(self)@.producers
                },
                ..old(self)@
            }),
    {
        self.register(Policy::Conservative)
    }

    /// A callback that drops the oldest message where the queue is full.
    /// The subscription counts it as a producer until it is released.
    pub fn create_callback(&mut self) -> (callback: Callback)
        ensures
            callback.policy == Policy::Force,
            final(self)@ == (SubscriberView {
                producers: if old(self)@.producers < usize::MAX {
                    old(self)@.producers + 1
                } else {
                    old(self)@.producers
                },
                ..old(self)@
            }),
    {
        self.register(Policy::Force)
    }

    /// As [`Subscriber::create_conservative_callback`].
    pub fn create_conservative_mut_callback(&mut self) -> (callback: Callback)
        ensures
            callback.policy == Policy::Conservative,
            final(self)@ == (SubscriberView {
                producers: if old(self)@.producers < usize::MAX {
                    old(self)@.producers + 1
                } else {
                    old(self)@.producers
                },
                ..old(self)@
            }),
    {
        self.create_conservative_callback()
    }

    /// As [`Subscriber::create_callback`].
    pub fn create_mut_callback(&mut self) -> (callback: Callback)
        ensures
            callback.policy == Policy::Force,
            final(self)@ == (SubscriberView {
                producers: if old(self)@.producers < usize::MAX {
                    old(self)@.producers + 1
                } else {
                    old(self)@.producers
                },
                ..old(self)@
            }),
    {
        self.create_callback()
    }

    /// Takes back a callback that its producer has dropped.
    pub fn release(&mut self, callback: Callback)
        ensures
            final(self)@ == (SubscriberView {
                producers: if old(self)@.producers > 0 {
                    (old(self)@.producers - 1) as nat
                } else {
                    0
                },
                ..old(self)@
            }),
    {
        if self.producers > 0 {
            self.producers = self.producers - 1;
        }
    }

    /// The reader goes away: from now on every delivery is refused.
    pub fn close(&mut self)
        ensures
            final(self)@ == (SubscriberView { open: false, ..old(self)@ }),
    {
        self.open = false;
    }

    /// Delivers `value` through `callback`. A subscription whose reader is
    /// gone takes nothing and answers `Break`; any other answers
    /// `Continue`, asks for a reader to be woken where the message made the
    /// queue longer, and names the message that was dropped where it did
    /// not.
    pub fn deliver(&mut self, callback: &Callback, value: u64) -> (delivery: Delivery)
        requires
            old(self).wf(),
        ensures
            final(self).wf(),
            final(self)@ == old(self)@.delivered(*callback, value),
            delivery.flow == if old(self)@.open {
                ControlFlow::<(), ()>::Continue(())
            } else {
                ControlFlow::<(), ()>::Break(())
            },
            delivery.notify == old(self)@.notifies(),
            delivery.dropped == old(self)@.drops(*callback, value),
    {
        if !self.open {
            return Delivery { flow: ControlFlow::Break(()), notify: false, dropped: None };
        }
        let dropped = match callback.policy {
            Policy::Conservative => match queue_push(&mut self.queue, value) {
                Ok(()) => None,
                Err(refused) => Some(refused),
            },
            Policy::Force => queue_force_push(&mut self.queue, value),
        };
        Delivery { flow: ControlFlow::Continue(()), notify: dropped.is_none(), dropped }
    }
}

/// The queue after each of `values` was delivered forcefully, in order.
pub open spec fn force_push_all(items: Seq<u64>, capacity: nat, values: Seq<u64>) -> Seq<u64>
    decreases values.len(),
{
    if values.len() == 0 {
        items
    } else {
        spec_force_push(
            force_push_all(items, capacity, values.drop_last()),
            capacity,
            values.last(),
        )
    }
}

/// Forceful delivery keeps the latest messages: whatever was delivered,
/// the queue holds the last `capacity` of what it held before followed by
/// what was delivered, in the order of delivery.
pub proof fn lemma_force_keeps_latest(items: Seq<u64>, capacity: nat, values: Seq<u64>)
    requires
        0 < capacity,
        items.len() <= capacity,
    ensures
        force_push_all(items, capacity, values) == last_items(items + values, capacity),
    decreases values.len(),
{
    if values.len() == 0 {
        assert(items + values =~= items);
    } else {
        let earlier = values.drop_last();
        lemma_force_keeps_latest(items, capacity, earlier);
        let before = last_items(items + earlier, capacity);
        assert(items + values =~= (items + earlier).push(values.last()));
        assert(spec_force_push(before, capacity, values.last()) =~= last_items(
            items + values,
            capacity,
        ));
    }
}

/// A forceful subscription of capacity `k` that was delivered `k` messages
/// or more holds exactly the last `k` of them, oldest first.
pub proof fn lemma_force_delivery(items: Seq<u64>, capacity: nat, values: Seq<u64>)
    requires
        0 < capacity,
        items.len() <= capacity,
        values.len() >= capacity,
    ensures
        force_push_all(items, capacity, values) == values.skip(values.len() - capacity),
{
    lemma_force_keeps_latest(items, capacity, values);
    assert(last_items(items + values, capacity) =~= values.skip(values.len() - capacity));
}

/// The source that is tried `k` places after the source at `turn`, among
/// `n` sources that are tried round and round.
pub open spec fn spec_rotated(turn: int, k: int, n: int) -> int {
    if turn + k < n {
        turn + k
    } else {
        turn + k - n
    }
}

/// Of the sources tried from `turn` on, the one tried `k` places later is
/// the first that has a message.
pub open spec fn is_next_source(sources: Seq<SubscriberView>, turn: int, k: int) -> bool {
    &&& 0 <= k < sources.len()
    &&& sources[spec_rotated(turn, k, sources.len() as int)].items.len() > 0
    &&& forall|j: int|
        0 <= j < k ==> (#[trigger] sources[spec_rotated(turn, j, sources.len() as int)]).items.len()
            == 0
}

/// An unbounded subscription as a mathematical value.
pub struct UnboundedView {
    /// The sources, in the order in which they were added.
    pub sources: Seq<SubscriberView>,
    /// The source that is tried first when a message is looked for.
    pub turn: int,
}

impl UnboundedView {
    /// No source has a message.
    pub open spec fn is_empty(self) -> bool {
        forall|i: int| 0 <= i < self.sources.len() ==> (#[trigger] self.sources[i]).items.len() == 0
    }

    /// No source has a producer.
    pub open spec fn is_closed(self) -> bool {
        forall|i: int| 0 <= i < self.sources.len() ==> (#[trigger] self.sources[i]).producers == 0
    }

    /// The subscription after the oldest message of the source at `i` was
    /// taken: that source is one message shorter, and the source after it
    /// is tried first next time.
    pub open spec fn taken(self, i: int) -> UnboundedView {
        UnboundedView {
            sources: self.sources.update(
                i,
                SubscriberView { items: self.sources[i].items.drop_first(), ..self.sources[i] },
            ),
            turn: spec_rotated(i, 1, self.sources.len() as int),
        }
    }
}

/// A subscription that is made of bounded subscriptions.
pub struct UnboundedSubscription {
    sources: Vec<Subscriber>,
    turn: usize,
}

impl View for UnboundedSubscription {
    type V = UnboundedView;

    closed spec fn view(&self) -> UnboundedView {
        UnboundedView {
            sources: Seq::new(self.sources@.len(), |i: int| self.sources@[i]@),
            turn: self.turn as int,
        }
    }
}

impl UnboundedSubscription {
    /// The invariant of an unbounded subscription: every source is in
    /// order, and the turn is at one of them.
    pub closed spec fn wf(&self) -> bool {
        &&& forall|i: int| 0 <= i < self.sources@.len() ==> (#[trigger] self.sources@[i]).wf()
        &&& self.turn < self.sources@.len() || (self.turn == 0 && self.sources@.len() == 0)
    }

    /// A subscription without a source.
    pub fn none() -> (subscription: Self)
        ensures
            subscription.wf(),
            subscription@ == (UnboundedView { sources: Seq::<SubscriberView>::empty(), turn: 0 }),
    {
        let subscription = UnboundedSubscription { sources: Vec::new(), turn: 0 };
        assert(subscription@.sources =~= Seq::<SubscriberView>::empty());
        subscription
    }

    /// The number of sources.
    pub fn len(&self) -> (n: usize)
        ensures
            n == self@.sources.len(),
    {
        self.sources.len()
    }

    /// Adds `source` behind the sources added so far.
    pub fn add(&mut self, source: Subscriber)
        requires
            old(self).wf(),
            source.wf(),
        ensures
            final(self).wf(),
            final(self)@ == (UnboundedView {
                sources: old(self)@.sources.push(source@),
                turn: old(self)@.turn,
            }),
    {
        self.sources.push(source);
        assert(self@.sources =~= old(self)@.sources.push(source@));
    }

    /// Delivers `value` through `callback` to the source at `source`, as
    /// [`Subscriber::deliver`] does.
    pub fn deliver(&mut self, source: usize, callback: &Callback, value: u64) -> (delivery: Delivery)
        requires
            old(self).wf(),
            source < old(self)@.sources.len(),
        ensures
            final(self).wf(),
            final(self)@ == (UnboundedView {
                sources: old(self)@.sources.update(
                    source as int,
                    old(self)@.sources[source as int].delivered(*callback, value),
                ),
                turn: old(self)@.turn,
            }),
            delivery.flow == if old(self)@.sources[source as int].open {
                ControlFlow::<(), ()>::Continue(())
            } else {
                ControlFlow::<(), ()>::Break(())
            },
            delivery.notify == old(self)@.sources[source as int].notifies(),
            delivery.dropped == old(self)@.sources[source as int].drops(*callback, value),
    {
        let ghost before = self.sources@;
        let delivery = self.sources[source].deliver(callback, value);
        proof {
            assert(self@.sources =~= old(self)@.sources.update(
                source as int,
                old(self)@.sources[source as int].delivered(*callback, value),
            ));
            assert forall|i: int| 0 <= i < self.sources@.len() implies (
            #[trigger] self.sources@[i]).wf() by {
                if i != source {
                    assert(self.sources@[i] == before[i]);
                }
            }
        }
        delivery
    }

    /// Takes back a callback on the source at `source` that its producer
    /// has dropped, as [`Subscriber::release`] does.
    pub fn release(&mut self, source: usize, callback: Callback)
        requires
            old(self).wf(),
            source < old(self)@.sources.len(),
        ensures
            final(self).wf(),
            final(self)@ == (UnboundedView {
                sources: old(self)@.sources.update(
                    source as int,
                    SubscriberView {
                        producers: if old(self)@.sources[source as int].producers > 0 {
                            (old(self)@.sources[source as int].producers - 1) as nat
                        } else {
                            0
                        },
                        ..old(self)@.sources[source as int]
                    },
                ),
                turn: old(self)@.turn,
            }),
    {
        let ghost before = self.sources@;
        self.sources[source].release(callback);
        proof {
            assert(self@.sources =~= old(self)@.sources.update(
                source as int,
                self.sources@[source as int]@,
            ));
            assert forall|i: int| 0 <= i < self.sources@.len() implies (
            #[trigger] self.sources@[i]).wf() by {
                if i != source {
                    assert(self.sources@[i] == before[i]);
                }
            }
        }
    }

    /// The next message: the oldest message of the first source that has
    /// one, where the sources are tried in turn from the one after the
    /// source that gave the last message. `None` where no source has a
    /// message.
    pub fn try_recv(&mut self) -> (message: Option<u64>)
        requires
            old(self).wf(),
        ensures
            final(self).wf(),
            match message {
                Some(value) => exists|k: int|
                    {
                        &&& #[trigger] is_next_source(old(self)@.sources, old(self)@.turn, k)
                        &&& value == old(self)@.sources[spec_rotated(
                            old(self)@.turn,
                            k,
                            old(self)@.sources.len() as int,
                        )].items.first()
                        &&& final(self)@ == old(self)@.taken(
                            spec_rotated(old(self)@.turn, k, old(self)@.sources.len() as int),
                        )
                    },
                None => old(self)@.is_empty() && final(self)@ == old(self)@,
            },
    {
        let n = self.sources.len();
        let mut k: usize = 0;
        while k < n
            invariant
                0 <= k <= n,
                n == self.sources@.len(),
                self.wf(),
                self@ == old(self)@,
                forall|j: int|
                    0 <= j < k ==> (#[trigger] old(self)@.sources[spec_rotated(
                        old(self)@.turn,
                        j,
                        n as int,
                    )]).items.len() == 0,
            decreases n - k,
        {
            let i = if self.turn < n - k {
                self.turn + k
            } else {
                self.turn - (n - k)
            };
            let ghost before = self.sources@;
            let ghost seen = self@;
            assert(seen.sources[i as int] == before[i as int]@);
            let found = self.sources[i].try_recv();
            proof {
                assert forall|j: int| 0 <= j < self.sources@.len() implies (
                #[trigger] self.sources@[j]).wf() by {
                    if j != i {
                        assert(self.sources@[j] == before[j]);
                    }
                }
            }
            match found {
                Some(value) => {
                    self.turn = if i + 1 < n {
                        i + 1
                    } else {
                        0
                    };
                    proof {
                        assert(is_next_source(old(self)@.sources, old(self)@.turn, k as int));
                        assert(self@.sources =~= old(self)@.taken(i as int).sources);
                    }
                    return Some(value);
                },
                None => {
                    proof {
                        assert(self.sources@[i as int]@ == before[i as int]@);
                        assert(self@.sources =~= seen.sources);
                    }
                },
            }
            k += 1;
        }
        proof {
            assert forall|i: int| 0 <= i < old(self)@.sources.len() implies (
            #[trigger] old(self)@.sources[i]).items.len() == 0 by {
                let turn = old(self)@.turn;
                let j = if i >= turn {
                    i - turn
                } else {
                    i - turn + n
                };
                assert(spec_rotated(turn, j, n as int) == i);
            }
        }
        None
    }

    /// No source has a producer left.
    pub fn is_closed(&self) -> (closed: bool)
        requires
            self.wf(),
        ensures
            closed == self@.is_closed(),
    {
        let mut i: usize = 0;
        while i < self.sources.len()
            invariant
                0 <= i <= self.sources@.len(),
                forall|j: int| 0 <= j < i ==> (#[trigger] self@.sources[j]).producers == 0,
            decreases self.sources@.len() - i,
        {
            if !self.sources[i].is_closed() {
                assert(self@.sources[i as int].producers != 0);
                return false;
            }
            i += 1;
        }
        true
    }

    /// One step of a reader: the next message where there is one; else
    /// whether waiting can still bring one.
    pub fn recv_step(&mut self) -> (step: RecvStep)
        requires
            old(self).wf(),
        ensures
            final(self).wf(),
            match step {
                RecvStep::Ready(value) => exists|k: int|
                    {
                        &&& #[trigger] is_next_source(old(self)@.sources, old(self)@.turn, k)
                        &&& value == old(self)@.sources[spec_rotated(
                            old(self)@.turn,
                            k,
                            old(self)@.sources.len() as int,
                        )].items.first()
                        &&& final(self)@ == old(self)@.taken(
                            spec_rotated(old(self)@.turn, k, old(self)@.sources.len() as int),
                        )
                    },
                RecvStep::Closed => old(self)@.is_empty() && old(self)@.is_closed() && final(self)@
                    == old(self)@,
                RecvStep::Wait => old(self)@.is_empty() && !old(self)@.is_closed() && final(self)@
                    == old(self)@,
            },
    {
        match self.try_recv() {
            Some(value) => RecvStep::Ready(value),
            None => if self.is_closed() {
                RecvStep::Closed
            } else {
                RecvStep::Wait
            },
        }
    }
}

} // verus!
