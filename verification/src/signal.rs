//! Signals: lists of receivers that are handed a copy of each message, in
//! the order in which they were connected.
//!
//! A signal keeps two lists. The receivers of the first are done with a
//! message when they return; those of the second start work that the
//! emitter waits for, one receiver after the other, before any receiver of
//! the first list is called. The signal does not care what a receiver is:
//! `R` and `A` are whatever the application connects, most often boxed
//! closures.

use std::marker::PhantomData;
use vstd::pervasive::cloned;
use vstd::prelude::*;

verus! {

pub struct Signal<T: Clone, R, A> {
    async_fns: Vec<A>,
    fns: Vec<R>,
    message: PhantomData<T>,
}

impl<T: Clone, R, A> Signal<T, R, A> {
    /// The receivers that are done when they return, in order of connection.
    pub closed spec fn receivers(&self) -> Seq<R> {
        self.fns@
    }

    /// The receivers whose work is waited for, in order of connection.
    pub closed spec fn async_receivers(&self) -> Seq<A> {
        self.async_fns@
    }

    /// Connects `receiver` behind the receivers connected so far.
    pub fn connect_to(&mut self, receiver: R)
        ensures
            final(self).receivers() == old(self).receivers().push(receiver),
            final(self).async_receivers() == old(self).async_receivers(),
    {
        self.fns.push(receiver);
    }

    /// Connects `receiver` behind the waited-for receivers connected so far.
    pub fn connect_to_async(&mut self, receiver: A)
        ensures
            final(self).async_receivers() == old(self).async_receivers().push(receiver),
            final(self).receivers() == old(self).receivers(),
    {
        self.async_fns.push(receiver);
    }

    /// The waited-for receivers, for the emitter to start and wait for.
    pub fn async_fns(&self) -> (list: &Vec<A>)
        ensures
            list@ == self.async_receivers(),
    {
        &self.async_fns
    }
}

impl<T: Clone, R, A> Default for Signal<T, R, A> {
    fn default() -> (signal: Self)
        ensures
            signal.receivers() == Seq::<R>::empty(),
            signal.async_receivers() == Seq::<A>::empty(),
    {
        Signal { async_fns: Vec::new(), fns: Vec::new(), message: PhantomData }
    }
}

impl<T: Clone, R: Fn(T), A> Signal<T, R, A> {
    /// Every receiver can be handed every message.
    pub open spec fn receivers_total(&self) -> bool {
        forall|i: int, m: T|
            0 <= i < self.receivers().len() ==> #[trigger] call_requires(self.receivers()[i], (m,))
    }

    /// The receiver at `i` was handed a clone of `msg` and is done with it.
    pub open spec fn handed(&self, i: int, msg: T) -> bool {
        exists|m: T| cloned(msg, m) && #[trigger] call_ensures(self.receivers()[i], (m,), ())
    }

    /// Hands a clone of `msg` to each receiver that is done when it
    /// returns, in order of connection.
    pub fn emit_blocking(&self, msg: T)
        requires
            self.receivers_total(),
        ensures
            forall|i: int| 0 <= i < self.receivers().len() ==> #[trigger] self.handed(i, msg),
    {
        let mut i: usize = 0;
        while i < self.fns.len()
            invariant
                0 <= i <= self.fns@.len(),
                self.receivers_total(),
                forall|j: int| 0 <= j < i ==> #[trigger] self.handed(j, msg),
            decreases self.fns@.len() - i,
        {
            let copy = msg.clone();
            assert(call_requires(self.receivers()[i as int], (copy,)));
            (self.fns[i])(copy);
            assert(cloned(msg, copy) && call_ensures(self.receivers()[i as int], (copy,), ()));
            i += 1;
        }
    }
}

} // verus!
