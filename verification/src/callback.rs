//! A consumer made of a closure: the callback is called on each record, and
//! what it returns is the consumer's answer.

use crate::stream::Sink;
use core::marker::PhantomData;
use vstd::prelude::*;

verus! {

/// The callback can be called on every record, and its answer depends on
/// the record alone.
pub open spec fn steady<T, E, F: FnMut(T) -> Result<(), E>>(f: F) -> bool {
    &&& forall|t: T| #[trigger] call_requires(f, (t,))
    &&& forall|t: T, r1: Result<(), E>, r2: Result<(), E>|
        #![trigger call_ensures(f, (t,), r1), call_ensures(f, (t,), r2)]
        call_ensures(f, (t,), r1) && call_ensures(f, (t,), r2) ==> r1 == r2
}

/// A sink that hands each record to a callback. Its model is the callback
/// itself: what the callback does besides answering is its own affair.
pub struct Callback<T, E, F> {
    pub call: F,
    pub types: PhantomData<(T, E)>,
}

impl<T, E, F: FnMut(T) -> Result<(), E>> Callback<T, E, F> {
    /// The sink that calls `call` on each record.
    pub fn new(call: F) -> (c: Self)
        ensures
            c.call == call,
            steady(call) ==> c.wf(),
    {
        Callback { call, types: PhantomData }
    }
}

impl<T, E, F: FnMut(T) -> Result<(), E>> Sink<T> for Callback<T, E, F> {
    type Error = E;

    type Model = F;

    open spec fn wf(&self) -> bool {
        steady(self.call)
    }

    open spec fn model(&self) -> F {
        self.call
    }

    open spec fn offer(m: F, item: T) -> Result<F, E> {
        match (choose|r: Result<(), E>| call_ensures(m, (item,), r)) {
            Ok(_) => Ok(m),
            Err(e) => Err(e),
        }
    }

    fn accept(&mut self, item: T) -> (r: Result<(), E>) {
        (self.call)(item)
    }
}

} // verus!
