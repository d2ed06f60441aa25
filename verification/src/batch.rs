//! The producer that stands for the finished work of a parser: the records
//! it parsed, ready to be delivered, or the error that it ended with.

use crate::stream::{feed, Rest, Sink, Source, StreamError, StreamResult};
use std::collections::VecDeque;
use vstd::prelude::*;

verus! {

/// The quads parsed from a document, or the error raised while parsing it.
///
/// A carried error is delivered by the first poll and by no other: the
/// producer is exhausted from then on.
pub enum JsonLdQuadSource<Q, E> {
    /// Some quads were parsed; those not yet delivered, in order.
    Quads(VecDeque<Q>),
    /// An error was raised while parsing; `None` once it was delivered.
    Failed(Option<E>),
}

impl<Q, E> JsonLdQuadSource<Q, E> {
    /// The producer that carries `err` and no record.
    pub fn from_err(err: E) -> (s: Self)
        ensures
            s == JsonLdQuadSource::<Q, E>::Failed(Some(err)),
            s.rest() == (Rest::<Q, E> { pending: Seq::empty(), failure: Some(err), budget: 0 }),
    {
        JsonLdQuadSource::Failed(Some(err))
    }
}

impl<Q, E> Source for JsonLdQuadSource<Q, E> {
    type Item = Q;

    type Error = E;

    open spec fn wf(&self) -> bool {
        true
    }

    open spec fn rest(&self) -> Rest<Q, E> {
        match self {
            JsonLdQuadSource::Quads(quads) => Rest {
                pending: quads@,
                failure: None,
                budget: quads@.len(),
            },
            JsonLdQuadSource::Failed(carried) => Rest {
                pending: Seq::empty(),
                failure: *carried,
                budget: 0,
            },
        }
    }

    open spec fn hint(&self) -> (usize, Option<usize>) {
        (0, None)
    }

    /// Delivers the next record, if one is left, and answers `true`; answers
    /// `false` when none is left. A carried error is the answer of the first
    /// poll; every poll after it answers `false`.
    fn try_for_some_item<K: Sink<Q>>(&mut self, sink: K) -> (r: (K, StreamResult<bool, E, K::Error>))
        ensures
            match *old(self) {
                JsonLdQuadSource::Quads(quads) => {
                    &&& *final(self) is Quads
                    &&& final(self).rest().pending == quads@.skip(
                        if quads@.len() > 0 {
                            1int
                        } else {
                            0int
                        },
                    )
                    &&& quads@.len() == 0 ==> r.1 == Ok::<bool, StreamError<E, K::Error>>(false)
                    &&& quads@.len() > 0 ==> match K::offer(sink.model(), quads@[0]) {
                        Ok(m) => r.1 == Ok::<bool, StreamError<E, K::Error>>(true),
                        Err(e) => r.1 == Err::<bool, StreamError<E, K::Error>>(
                            StreamError::SinkError(e),
                        ),
                    }
                },
                JsonLdQuadSource::Failed(Some(e)) => {
                    &&& r.1 == Err::<bool, StreamError<E, K::Error>>(StreamError::SourceError(e))
                    &&& *final(self) == JsonLdQuadSource::<Q, E>::Failed(None)
                    &&& r.0.model() == sink.model()
                },
                JsonLdQuadSource::Failed(None) => {
                    &&& r.1 == Ok::<bool, StreamError<E, K::Error>>(false)
                    &&& *final(self) == JsonLdQuadSource::<Q, E>::Failed(None)
                    &&& r.0.model() == sink.model()
                },
            },
    {
        let mut current = sink;
        let ghost start = sink.model();
        match self {
            JsonLdQuadSource::Quads(quads) => {
                let ghost before = quads@;
                match quads.pop_front() {
                    Some(quad) => {
                        proof {
                            assert(before.subrange(1, before.len() as int) =~= before.skip(1));
                            assert(before.take(1)[0] == quad);
                            assert(before.take(1).skip(1).len() == 0);
                            if let Ok(next) = K::offer(start, quad) {
                                assert(feed::<Q, K>(next, before.take(1).skip(1)).error is None);
                            }
                        }
                        match current.accept(quad) {
                            Ok(()) => (current, Ok(true)),
                            Err(e) => (current, Err(StreamError::SinkError(e))),
                        }
                    },
                    None => {
                        proof {
                            assert(before.skip(0) =~= before);
                            assert(before.take(0).len() == 0);
                        }
                        (current, Ok(false))
                    },
                }
            },
            JsonLdQuadSource::Failed(carried) => {
                proof {
                    assert(Seq::<Q>::empty().skip(0) =~= Seq::<Q>::empty());
                    assert(Seq::<Q>::empty().take(0).len() == 0);
                }
                match carried.take() {
                    Some(e) => (current, Err(StreamError::SourceError(e))),
                    None => (current, Ok(false)),
                }
            },
        }
    }

    fn size_hint_items(&self) -> (r: (usize, Option<usize>)) {
        (0, None)
    }
}

} // verus!
