//! A producer that holds its records in memory and hands them over in
//! bursts.

use crate::stream::{feed, lemma_feed_concat, Fed, Rest, Sink, Source, StreamError, StreamResult};
use std::collections::VecDeque;
use vstd::prelude::*;

verus! {

/// The records of an in-memory collection, delivered up to `burst` at a
/// poll, and ended by `failure` if there is one.
///
/// The poll that finds no record left raises the failure, once, or answers
/// that the producer is exhausted.
pub struct Replay<T, E> {
    pub items: VecDeque<T>,
    pub burst: usize,
    pub failure: Option<E>,
}

/// The records that one poll offers: the first `burst` of `items`, or all of
/// them if they are fewer.
pub open spec fn next_burst<T>(items: Seq<T>, burst: usize) -> Seq<T> {
    if items.len() <= burst {
        items
    } else {
        items.take(burst as int)
    }
}

impl<T, E> Source for Replay<T, E> {
    type Item = T;

    type Error = E;

    open spec fn wf(&self) -> bool {
        self.burst >= 1
    }

    open spec fn rest(&self) -> Rest<T, E> {
        Rest { pending: self.items@, failure: self.failure, budget: self.items@.len() }
    }

    open spec fn hint(&self) -> (usize, Option<usize>) {
        (self.items@.len() as usize, Some(self.items@.len() as usize))
    }

    /// Delivers the next records, at most `burst` of them, and answers
    /// `true`. With no record left, raises the failure and forgets it, or
    /// answers `false`.
    fn try_for_some_item<K: Sink<T>>(&mut self, sink: K) -> (r: (K, StreamResult<bool, E, K::Error>))
        ensures
            final(self).burst == old(self).burst,
            old(self).items@.len() == 0 ==> final(self).failure is None && r.0.model()
                == sink.model() && r.1 == (match old(self).failure {
                Some(e) => Err::<bool, StreamError<E, K::Error>>(StreamError::SourceError(e)),
                None => Ok(false),
            }),
            old(self).items@.len() > 0 ==> ({
                let fed = feed::<T, K>(sink.model(), next_burst(old(self).items@, old(self).burst));
                &&& final(self).failure == old(self).failure
                &&& final(self).items@ == old(self).items@.skip(fed.taken as int)
                &&& r.0.model() == fed.model
                &&& r.1 == (match fed.error {
                    Some(e) => Err::<bool, StreamError<E, K::Error>>(StreamError::SinkError(e)),
                    None => Ok(true),
                })
            }),
    {
        let mut current = sink;
        let ghost start = sink.model();
        let ghost before = self.items@;
        if self.items.len() == 0 {
            proof {
                assert(before.skip(0) =~= before);
                assert(before.take(0).len() == 0);
            }
            return match self.failure.take() {
                Some(e) => (current, Err(StreamError::SourceError(e))),
                None => (current, Ok(false)),
            };
        }
        let mut sent: usize = 0;
        proof {
            assert(before.skip(0) =~= before);
            assert(before.take(0).len() == 0);
        }
        while sent < self.burst && self.items.len() > 0
            invariant
                self.burst == old(self).burst,
                self.failure == old(self).failure,
                before == old(self).items@,
                before.len() > 0,
                start == sink.model(),
                current.wf(),
                sent <= before.len(),
                sent <= self.burst,
                self.items@ == before.skip(sent as int),
                feed::<T, K>(start, before.take(sent as int)) == (Fed::<K::Model, K::Error> {
                    model: current.model(),
                    taken: sent as nat,
                    error: None,
                }),
            decreases self.items@.len(),
        {
            let ghost reached = current.model();
            match self.items.pop_front() {
                Some(item) => {
                    proof {
                        let one = seq![item];
                        assert(before.take(sent + 1) =~= before.take(sent as int) + one);
                        assert(before.skip(sent as int).subrange(
                            1,
                            before.skip(sent as int).len() as int,
                        ) =~= before.skip(sent + 1));
                        assert(one[0] == item);
                        assert(one.skip(1).len() == 0);
                        if let Ok(next) = K::offer(reached, item) {
                            assert(feed::<T, K>(next, one.skip(1)).error is None);
                        }
                        lemma_feed_concat::<T, K>(start, before.take(sent as int), one);
                        let whole = next_burst(before, self.burst);
                        assert(whole =~= before.take(sent + 1) + whole.skip(sent + 1));
                        lemma_feed_concat::<T, K>(
                            start,
                            before.take(sent + 1),
                            whole.skip(sent + 1),
                        );
                    }
                    match current.accept(item) {
                        Ok(()) => {
                            sent = sent + 1;
                        },
                        Err(e) => {
                            return (current, Err(StreamError::SinkError(e)));
                        },
                    }
                },
                None => {
                    return (current, Ok(true));
                },
            }
        }
        proof {
            assert(next_burst(before, self.burst) =~= before.take(sent as int));
        }
        (current, Ok(true))
    }

    fn size_hint_items(&self) -> (r: (usize, Option<usize>)) {
        let n = self.items.len();
        (n, Some(n))
    }
}

} // verus!
