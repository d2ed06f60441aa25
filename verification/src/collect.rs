//! A consumer that keeps every record it is given, in order, up to an
//! optional limit.

use crate::stream::{feed, Fed, Sink};
use vstd::prelude::*;

verus! {

/// The error of a bounded collector that is offered one record too many.
#[derive(Debug, Clone, Copy, PartialEq, Eq, Structural)]
pub struct CollectorFull;

/// A sink that appends each record to a vector. With a limit it turns down
/// every record offered once it holds that many.
pub struct Collector<T> {
    pub items: Vec<T>,
    pub limit: Option<usize>,
}

/// Whether a collector that holds `held` records, with the given limit, has
/// room for one more.
pub open spec fn has_room(held: nat, limit: Option<usize>) -> bool {
    match limit {
        Some(l) => held < l,
        None => true,
    }
}

impl<T> Collector<T> {
    /// A collector without a limit, holding nothing.
    pub fn new() -> (c: Self)
        ensures
            c.items@ == Seq::<T>::empty(),
            c.limit is None,
    {
        Collector { items: Vec::new(), limit: None }
    }

    /// A collector that takes at most `limit` records, holding nothing.
    pub fn bounded(limit: usize) -> (c: Self)
        ensures
            c.items@ == Seq::<T>::empty(),
            c.limit == Some(limit),
    {
        Collector { items: Vec::new(), limit: Some(limit) }
    }

    /// The records collected, in the order in which they came.
    pub fn into_items(self) -> (v: Vec<T>)
        ensures
            v@ == self.items@,
    {
        self.items
    }
}

impl<T> Sink<T> for Collector<T> {
    type Error = CollectorFull;

    type Model = (Seq<T>, Option<usize>);

    open spec fn wf(&self) -> bool {
        true
    }

    open spec fn model(&self) -> (Seq<T>, Option<usize>) {
        (self.items@, self.limit)
    }

    open spec fn offer(m: (Seq<T>, Option<usize>), item: T) -> Result<
        (Seq<T>, Option<usize>),
        CollectorFull,
    > {
        if has_room(m.0.len(), m.1) {
            Ok((m.0.push(item), m.1))
        } else {
            Err(CollectorFull)
        }
    }

    fn accept(&mut self, item: T) -> (r: Result<(), CollectorFull>) {
        match self.limit {
            Some(l) => {
                if self.items.len() >= l {
                    return Err(CollectorFull);
                }
            },
            None => {},
        }
        self.items.push(item);
        Ok(())
    }
}

/// How many of `offered` records a collector takes that already holds `held`.
pub open spec fn room_for(held: nat, limit: Option<usize>, offered: nat) -> nat {
    match limit {
        Some(l) => if held + offered <= l {
            offered
        } else if held <= l {
            (l - held) as nat
        } else {
            0
        },
        None => offered,
    }
}

/// A collector keeps the longest prefix of a run that its limit has room
/// for, behind what it already held. It refuses exactly when the run is
/// longer than that, at the first record past the prefix.
pub proof fn lemma_feed_collector<T>(held: Seq<T>, limit: Option<usize>, items: Seq<T>)
    ensures
        feed::<T, Collector<T>>((held, limit), items) == (Fed::<
            (Seq<T>, Option<usize>),
            CollectorFull,
        > {
            model: (held + items.take(room_for(held.len(), limit, items.len()) as int), limit),
            taken: if room_for(held.len(), limit, items.len()) < items.len() {
                room_for(held.len(), limit, items.len()) + 1
            } else {
                items.len()
            },
            error: if room_for(held.len(), limit, items.len()) < items.len() {
                Some(CollectorFull)
            } else {
                None
            },
        }),
    decreases items.len(),
{
    let room = room_for(held.len(), limit, items.len());
    if items.len() == 0 {
        assert(held + items.take(0) =~= held);
    } else if has_room(held.len(), limit) {
        let next = held.push(items[0]);
        let rest = items.skip(1);
        lemma_feed_collector::<T>(next, limit, rest);
        let inner = room_for(next.len(), limit, rest.len());
        assert(room == inner + 1);
        assert(next + rest.take(inner as int) =~= held + items.take(room as int));
    } else {
        assert(room == 0);
        assert(held + items.take(0) =~= held);
    }
}

} // verus!
