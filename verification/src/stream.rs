//! The streaming protocol: producers of records (sources), consumers of
//! records (sinks), and the loop that drives one into the other.
//!
//! Records are handed to the consumer by value, one call per record. A
//! consumer is handed to the producer for the length of one poll and handed
//! back with the poll's answer.

use vstd::prelude::*;

verus! {

/// Why a stream stopped early: the producer failed, or the consumer did.
#[derive(Debug)]
pub enum StreamError<SourceErr, SinkErr> {
    /// The data origin failed; no further record will come.
    SourceError(SourceErr),
    /// The consumer turned a record down; the producer is not asked again.
    SinkError(SinkErr),
}

/// What a poll or a full drive answers.
pub type StreamResult<T, SourceErr, SinkErr> = Result<T, StreamError<SourceErr, SinkErr>>;

/// A consumer of records of type `T`.
///
/// What a sink does with a record is a function of its model: `offer` gives
/// the model after the record was taken, or the error with which it is
/// turned down.
pub trait Sink<T>: Sized {
    /// The error with which a record is turned down.
    type Error;

    /// What the sink's answers depend on.
    type Model;

    /// The sink's invariant.
    spec fn wf(&self) -> bool;

    /// The model of this sink.
    spec fn model(&self) -> Self::Model;

    /// What a sink with model `m` does with `item`.
    spec fn offer(m: Self::Model, item: T) -> Result<Self::Model, Self::Error>;

    /// Takes one record, or turns it down. A sink that turns a record down
    /// is left as it was.
    fn accept(&mut self, item: T) -> (r: Result<(), Self::Error>)
        requires
            old(self).wf(),
        ensures
            final(self).wf(),
            match Self::offer(old(self).model(), item) {
                Ok(m) => r is Ok && final(self).model() == m,
                Err(e) => r == Err::<(), Self::Error>(e) && final(self).model() == old(self).model(),
            },
    ;
}

/// What became of a run of records offered to a sink one after the other.
pub struct Fed<M, E> {
    /// The sink's model after the run.
    pub model: M,
    /// How many records were offered, the refused one included.
    pub taken: nat,
    /// The error of the refusal that ended the run, if one did.
    pub error: Option<E>,
}

/// Offers `items` in order to a sink whose model is `m`, up to and including
/// the first record that it turns down.
pub open spec fn feed<T, K: Sink<T>>(m: K::Model, items: Seq<T>) -> Fed<K::Model, K::Error>
    decreases items.len(),
{
    if items.len() == 0 {
        Fed { model: m, taken: 0, error: None }
    } else {
        match K::offer(m, items[0]) {
            Err(e) => Fed { model: m, taken: 1, error: Some(e) },
            Ok(next) => {
                let rest = feed::<T, K>(next, items.skip(1));
                Fed { model: rest.model, taken: rest.taken + 1, error: rest.error }
            },
        }
    }
}

/// A run never offers more records than it was given, and offers all of them
/// unless one is refused.
pub proof fn lemma_feed_taken<T, K: Sink<T>>(m: K::Model, items: Seq<T>)
    ensures
        feed::<T, K>(m, items).taken <= items.len(),
        feed::<T, K>(m, items).error is None ==> feed::<T, K>(m, items).taken == items.len(),
        feed::<T, K>(m, items).error is Some ==> feed::<T, K>(m, items).taken >= 1,
    decreases items.len(),
{
    if items.len() > 0 {
        if let Ok(next) = K::offer(m, items[0]) {
            lemma_feed_taken::<T, K>(next, items.skip(1));
        }
    }
}

/// Feeding two runs one after the other is feeding their concatenation: a
/// refusal in the first run ends it there, otherwise the second run starts
/// from the model that the first one left.
pub proof fn lemma_feed_concat<T, K: Sink<T>>(m: K::Model, first: Seq<T>, second: Seq<T>)
    ensures
        feed::<T, K>(m, first + second) == (if feed::<T, K>(m, first).error is Some {
            feed::<T, K>(m, first)
        } else {
            let rest = feed::<T, K>(feed::<T, K>(m, first).model, second);
            Fed { model: rest.model, taken: first.len() + rest.taken, error: rest.error }
        }),
    decreases first.len(),
{
    if first.len() == 0 {
        assert(first + second =~= second);
    } else {
        assert((first + second)[0] == first[0]);
        assert((first + second).skip(1) =~= first.skip(1) + second);
        if let Ok(next) = K::offer(m, first[0]) {
            lemma_feed_concat::<T, K>(next, first.skip(1), second);
            lemma_feed_taken::<T, K>(next, first.skip(1));
        }
    }
}

/// What is left of a stream: the model of a producer.
pub struct Rest<T, E> {
    /// The records still to come, in order.
    pub pending: Seq<T>,
    /// The error that ends the stream once they were delivered, if any.
    pub failure: Option<E>,
    /// How often a poll may still answer that more may remain.
    pub budget: nat,
}

/// A single-use producer of a sequence of records.
///
/// Its model is what is left of the stream. A poll hands over a prefix of
/// the pending records, of any length. The budget bounds how often a poll
/// may still answer that more may remain, so that every drive ends.
///
/// A producer that has just delivered its last record may answer `true` once
/// more; the answer `false` is final.
pub trait Source: Sized {
    /// The records produced.
    type Item;

    /// The error with which production fails.
    type Error;

    /// The producer's invariant.
    spec fn wf(&self) -> bool;

    /// What is left of the stream.
    spec fn rest(&self) -> Rest<Self::Item, Self::Error>;

    /// What `size_hint_items` answers.
    spec fn hint(&self) -> (usize, Option<usize>);

    /// Advances production: offers zero, one or many records to `sink`, in
    /// order, and stops at the first that it turns down. Answers whether more
    /// may remain.
    fn try_for_some_item<K: Sink<Self::Item>>(&mut self, sink: K) -> (r: (
        K,
        StreamResult<bool, Self::Error, K::Error>,
    ))
        requires
            old(self).wf(),
            sink.wf(),
        ensures
            final(self).wf(),
            r.0.wf(),
            polled::<Self::Item, Self::Error, K>(
                old(self).rest(),
                final(self).rest(),
                sink.model(),
                r.0.model(),
                r.1,
            ),
    ;

    /// A lower and, where known, an upper bound on the number of records
    /// still to come. Advisory only.
    fn size_hint_items(&self) -> (r: (usize, Option<usize>))
        ensures
            r == self.hint(),
    ;
}

/// The relation between a producer and a sink before and after one poll.
///
/// The records that left `pending` are exactly those offered to the sink.
/// With `Ok(true)` the producer may be polled again. With `Ok(false)` or a
/// producer error nothing is pending any more, and no later poll answers
/// `true`. With a consumer error the refused record is the last one that
/// left `pending`.
pub open spec fn polled<T, E, K: Sink<T>>(
    before: Rest<T, E>,
    after: Rest<T, E>,
    sink_before: K::Model,
    sink_after: K::Model,
    answer: StreamResult<bool, E, K::Error>,
) -> bool {
    let n = before.pending.len() - after.pending.len();
    let fed = feed::<T, K>(sink_before, before.pending.take(n));
    &&& n >= 0
    &&& after.pending == before.pending.skip(n)
    &&& sink_after == fed.model
    &&& match answer {
        Ok(more) => {
            &&& fed.error is None
            &&& if more {
                after.failure == before.failure && after.budget < before.budget
            } else {
                after.pending.len() == 0 && before.failure is None && after.failure is None
                    && after.budget == 0
            }
        },
        Err(StreamError::SourceError(e)) => {
            &&& fed.error is None
            &&& after.pending.len() == 0
            &&& before.failure == Some(e)
            &&& after.budget == 0
        },
        Err(StreamError::SinkError(e)) => {
            &&& fed.error == Some(e)
            &&& fed.taken == n
            &&& after.failure == before.failure
        },
    }
}

/// An exhausted producer stays exhausted: with nothing pending, no failure
/// to raise and no budget left, a poll answers `false`, offers the sink
/// nothing and leaves the producer exhausted.
pub proof fn lemma_exhausted_is_final<T, E, K: Sink<T>>(
    before: Rest<T, E>,
    after: Rest<T, E>,
    sink_before: K::Model,
    sink_after: K::Model,
    answer: StreamResult<bool, E, K::Error>,
)
    requires
        polled::<T, E, K>(before, after, sink_before, sink_after, answer),
        before.pending.len() == 0,
        before.failure is None,
        before.budget == 0,
    ensures
        answer == Ok::<bool, StreamError<E, K::Error>>(false),
        sink_after == sink_before,
        after.pending.len() == 0,
        after.failure is None,
        after.budget == 0,
{
    assert(before.pending.take(0).len() == 0);
}

/// The relation between a producer and a sink before and after a full drive.
///
/// The sink was offered the pending records in order. If it turned one down,
/// the drive ends with that consumer error and the producer keeps what
/// follows the refused record. Otherwise every record was delivered, and the
/// drive ends with the producer's failure if it has one.
pub open spec fn driven<T, E, K: Sink<T>>(
    before: Rest<T, E>,
    after: Rest<T, E>,
    sink_before: K::Model,
    sink_after: K::Model,
    answer: StreamResult<(), E, K::Error>,
) -> bool {
    let fed = feed::<T, K>(sink_before, before.pending);
    &&& sink_after == fed.model
    &&& after.pending == before.pending.skip(fed.taken as int)
    &&& match fed.error {
        Some(e) => answer == Err::<(), StreamError<E, K::Error>>(StreamError::SinkError(e)),
        None => match before.failure {
            Some(e) => answer == Err::<(), StreamError<E, K::Error>>(
                StreamError::SourceError(e),
            ),
            None => answer is Ok,
        },
    }
}

/// Drives `source` to completion: polls it until it is exhausted or an error
/// ends the stream, every record going to `sink`.
pub fn try_for_each_item<S: Source, K: Sink<S::Item>>(source: &mut S, sink: K) -> (r: (
    K,
    StreamResult<(), S::Error, K::Error>,
))
    requires
        old(source).wf(),
        sink.wf(),
    ensures
        final(source).wf(),
        r.0.wf(),
        driven::<S::Item, S::Error, K>(
            old(source).rest(),
            final(source).rest(),
            sink.model(),
            r.0.model(),
            r.1,
        ),
{
    let ghost all = source.rest().pending;
    let ghost start = sink.model();
    let mut current = sink;
    loop
        invariant
            source.wf(),
            current.wf(),
            start == sink.model(),
            source.rest().failure == old(source).rest().failure,
            source.rest().pending.len() <= all.len(),
            source.rest().pending == all.skip(all.len() - source.rest().pending.len()),
            feed::<S::Item, K>(start, all.take(all.len() - source.rest().pending.len())).error is None,
            feed::<S::Item, K>(start, all.take(all.len() - source.rest().pending.len())).model
                == current.model(),
            all == old(source).rest().pending,
        decreases source.rest().budget,
    {
        let ghost before = *source;
        let ghost done = all.len() - before.rest().pending.len();
        let (back, answer) = source.try_for_some_item(current);
        current = back;
        proof {
            let n = before.rest().pending.len() - source.rest().pending.len();
            let burst = before.rest().pending.take(n);
            assert(all.take(done + n) =~= all.take(done) + burst);
            assert(all.skip(done + n) =~= before.rest().pending.skip(n));
            lemma_feed_concat::<S::Item, K>(start, all.take(done), burst);
            lemma_feed_taken::<S::Item, K>(start, all.take(done));
            lemma_feed_taken::<S::Item, K>(start, all.take(done + n));
            if source.rest().pending.len() == 0 {
                assert(all.take(done + n) =~= all);
            }
            if feed::<S::Item, K>(start, all.take(done + n)).error is Some {
                assert(all =~= all.take(done + n) + all.skip(done + n));
                lemma_feed_concat::<S::Item, K>(start, all.take(done + n), all.skip(done + n));
            }
        }
        match answer {
            Ok(true) => {},
            Ok(false) => {
                return (current, Ok(()));
            },
            Err(e) => {
                return (current, Err(e));
            },
        }
    }
}

/// A producer that fails after its pending records, driven into a consumer
/// that takes them all: the consumer receives every pending record, in
/// order, the drive ends with the producer's error, and nothing is left.
pub proof fn lemma_drive_ends_with_producer_error<T, E, K: Sink<T>>(
    before: Rest<T, E>,
    after: Rest<T, E>,
    sink_before: K::Model,
    sink_after: K::Model,
    answer: StreamResult<(), E, K::Error>,
    e: E,
)
    requires
        driven::<T, E, K>(before, after, sink_before, sink_after, answer),
        before.failure == Some(e),
        feed::<T, K>(sink_before, before.pending).error is None,
    ensures
        answer == Err::<(), StreamError<E, K::Error>>(StreamError::SourceError(e)),
        feed::<T, K>(sink_before, before.pending).taken == before.pending.len(),
        sink_after == feed::<T, K>(sink_before, before.pending).model,
        after.pending.len() == 0,
{
    lemma_feed_taken::<T, K>(sink_before, before.pending);
}

/// A consumer that takes the first `k` pending records and turns down the
/// next: the drive ends with that consumer error, the consumer is as the
/// `k` records left it, and the producer keeps every record behind the
/// refused one, so it was not asked for any of them.
pub proof fn lemma_drive_ends_with_consumer_error<T, E, K: Sink<T>>(
    before: Rest<T, E>,
    after: Rest<T, E>,
    sink_before: K::Model,
    sink_after: K::Model,
    answer: StreamResult<(), E, K::Error>,
    k: nat,
    e: K::Error,
)
    requires
        driven::<T, E, K>(before, after, sink_before, sink_after, answer),
        k < before.pending.len(),
        feed::<T, K>(sink_before, before.pending.take(k as int)).error is None,
        K::offer(
            feed::<T, K>(sink_before, before.pending.take(k as int)).model,
            before.pending[k as int],
        ) == Err::<K::Model, K::Error>(e),
    ensures
        answer == Err::<(), StreamError<E, K::Error>>(StreamError::SinkError(e)),
        sink_after == feed::<T, K>(sink_before, before.pending.take(k as int)).model,
        after.pending == before.pending.skip(k as int + 1),
{
    let head = before.pending.take(k as int);
    let tail = before.pending.skip(k as int);
    assert(before.pending =~= head + tail);
    assert(tail[0] == before.pending[k as int]);
    lemma_feed_concat::<T, K>(sink_before, head, tail);
    lemma_feed_taken::<T, K>(sink_before, head);
}

} // verus!
