//! A history of bounded length: it keeps the latest values and forgets the
//! rest.

use std::collections::VecDeque;
use vstd::prelude::*;

verus! {

/// The last `k` of `all`, or all of them where there are no more than `k`.
pub open spec fn last_items<T>(all: Seq<T>, k: nat) -> Seq<T> {
    if all.len() <= k {
        all
    } else {
        all.skip(all.len() - k)
    }
}

/// The latest values of a stream, oldest first.
pub struct History<T> {
    capacity: usize,
    values: VecDeque<T>,
}

impl<T> View for History<T> {
    type V = Seq<T>;

    closed spec fn view(&self) -> Seq<T> {
        self.values@
    }
}

impl<T: Copy> History<T> {
    /// The number of values that the history keeps at most.
    pub closed spec fn spec_capacity(&self) -> nat {
        self.capacity as nat
    }

    /// The invariant of a history: it holds no more than its capacity.
    pub open spec fn wf(&self) -> bool {
        self@.len() <= self.spec_capacity()
    }

    /// An empty history that keeps up to `capacity` values.
    pub fn new(capacity: usize) -> (history: Self)
        ensures
            history.wf(),
            history@ == Seq::<T>::empty(),
            history.spec_capacity() == capacity,
    {
        History { capacity, values: VecDeque::new() }
    }

    pub fn capacity(&self) -> (capacity: usize)
        ensures
            capacity == self.spec_capacity(),
    {
        self.capacity
    }

    pub fn len(&self) -> (n: usize)
        ensures
            n == self@.len(),
    {
        self.values.len()
    }

    /// Adds `value` as the latest; where the history is full, the oldest
    /// value makes room for it.
    pub fn push(&mut self, value: T)
        requires
            old(self).wf(),
        ensures
            final(self).wf(),
            final(self).spec_capacity() == old(self).spec_capacity(),
            final(self)@ == last_items(old(self)@.push(value), old(self).spec_capacity()),
    {
        if self.capacity == 0 {
            assert(self.values@ =~= last_items(self.values@.push(value), 0));
            return ;
        }
        if self.values.len() == self.capacity {
            let _ = self.values.pop_front();
        }
        self.values.push_back(value);
        assert(self.values@ =~= last_items(old(self)@.push(value), old(self).spec_capacity()));
    }

    /// The values kept, oldest first.
    pub fn values(&self) -> (kept: Vec<T>)
        ensures
            kept@ == self@,
    {
        let mut kept: Vec<T> = Vec::new();
        let mut i: usize = 0;
        while i < self.values.len()
            invariant
                0 <= i <= self.values@.len(),
                kept@ == self.values@.take(i as int),
            decreases self.values@.len() - i,
        {
            kept.push(self.values[i]);
            assert(self.values@.take(i + 1) =~= self.values@.take(i as int).push(self.values@[i as int]));
            i += 1;
        }
        assert(self.values@.take(self.values@.len() as int) =~= self.values@);
        kept
    }
}

/// The history after each of `values` was pushed in turn.
pub open spec fn push_all<T>(kept: Seq<T>, capacity: nat, values: Seq<T>) -> Seq<T>
    decreases values.len(),
{
    if values.len() == 0 {
        kept
    } else {
        last_items(push_all(kept, capacity, values.drop_last()).push(values.last()), capacity)
    }
}

/// A history keeps the latest: whatever was pushed, it holds the last
/// `capacity` of what it held before followed by what was pushed.
pub proof fn lemma_history_keeps_latest<T>(kept: Seq<T>, capacity: nat, values: Seq<T>)
    requires
        kept.len() <= capacity,
    ensures
        push_all(kept, capacity, values) == last_items(kept + values, capacity),
    decreases values.len(),
{
    if values.len() == 0 {
        assert(kept + values =~= kept);
    } else {
        let earlier = values.drop_last();
        lemma_history_keeps_latest(kept, capacity, earlier);
        assert(kept + values =~= (kept + earlier).push(values.last()));
        assert(last_items(last_items(kept + earlier, capacity).push(values.last()), capacity)
            =~= last_items(kept + values, capacity));
    }
}

} // verus!
