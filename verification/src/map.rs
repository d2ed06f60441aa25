//! [`MapSource`], a source whose records are those of another source, each
//! passed through a transform, and [`MapSourceIterator`], which hands the
//! records of such a source out one at a time.

use crate::collect::{lemma_feed_collector, Collector};
use crate::stream::{feed, polled, Fed, Rest, Sink, Source, StreamError, StreamResult};
use core::convert::Infallible;
use core::marker::PhantomData;
use std::collections::VecDeque;
use vstd::prelude::*;

verus! {

/// A transform of records: a function from `A` to `Output`.
///
/// The transform is pure: what it returns depends on the record alone.
pub trait Transform<A> {
    /// The transformed records.
    type Output;

    /// The transform's invariant.
    spec fn wf(&self) -> bool;

    /// The output on `a`.
    spec fn image(&self, a: A) -> Self::Output;

    /// Transforms one record.
    fn apply(&self, a: A) -> (b: Self::Output)
        requires
            self.wf(),
        ensures
            b == self.image(a),
    ;
}

/// A closure can be called on every value and is a function: one input has
/// one output.
pub open spec fn pure<A, B, F: Fn(A) -> B>(f: F) -> bool {
    &&& forall|a: A| #[trigger] call_requires(f, (a,))
    &&& forall|a: A, b1: B, b2: B|
        #![trigger call_ensures(f, (a,), b1), call_ensures(f, (a,), b2)]
        call_ensures(f, (a,), b1) && call_ensures(f, (a,), b2) ==> b1 == b2
}

/// A closure as a transform. Its image of a record is whatever the closure
/// returns on it, so a contract over this transform says which record went
/// where, not what the closure made of it. A transform whose image is to be
/// known in proofs is a type of its own that implements [`Transform`].
pub struct FnMap<A, B, F> {
    pub call: F,
    pub types: PhantomData<(A, B)>,
}

impl<A, B, F: Fn(A) -> B> FnMap<A, B, F> {
    /// The transform that calls `call` on each record. Whatever `call` can
    /// return on a record is the image of that record.
    pub fn new(call: F) -> (m: Self)
        ensures
            m.call == call,
            pure(call) ==> m.wf(),
            pure(call) ==> forall|a: A, b: B| #[trigger]
                call_ensures(call, (a,), b) ==> m.image(a) == b,
    {
        FnMap { call, types: PhantomData }
    }
}

impl<A, B, F: Fn(A) -> B> Transform<A> for FnMap<A, B, F> {
    type Output = B;

    open spec fn wf(&self) -> bool {
        pure(self.call)
    }

    open spec fn image(&self, a: A) -> B {
        choose|b: B| call_ensures(self.call, (a,), b)
    }

    fn apply(&self, a: A) -> (b: B) {
        (self.call)(a)
    }
}

/// The transform that returns each record as it is.
pub struct Identity;

impl<A> Transform<A> for Identity {
    type Output = A;

    open spec fn wf(&self) -> bool {
        true
    }

    open spec fn image(&self, a: A) -> A {
        a
    }

    fn apply(&self, a: A) -> (b: A) {
        a
    }
}

/// The outputs of the transform `f` on each of `items`, in order.
pub open spec fn images<A, F: Transform<A>>(f: F, items: Seq<A>) -> Seq<F::Output> {
    Seq::new(items.len(), |i: int| f.image(items[i]))
}

/// What is left of a stream once each of its records goes through `f`.
pub open spec fn mapped<A, E, F: Transform<A>>(f: F, rest: Rest<A, E>) -> Rest<F::Output, E> {
    Rest { pending: images(f, rest.pending), failure: rest.failure, budget: rest.budget }
}

/// A sink for the records of the wrapped source: it passes each through the
/// transform and hands the result to the sink behind it.
pub struct MapSink<'a, F, K> {
    pub map: &'a F,
    pub sink: K,
}

impl<'a, A, F: Transform<A>, K: Sink<F::Output>> Sink<A> for MapSink<'a, F, K> {
    type Error = K::Error;

    type Model = (F, K::Model);

    open spec fn wf(&self) -> bool {
        self.sink.wf() && self.map.wf()
    }

    open spec fn model(&self) -> (F, K::Model) {
        (*self.map, self.sink.model())
    }

    open spec fn offer(m: (F, K::Model), item: A) -> Result<(F, K::Model), K::Error> {
        match K::offer(m.1, m.0.image(item)) {
            Ok(next) => Ok((m.0, next)),
            Err(e) => Err(e),
        }
    }

    fn accept(&mut self, item: A) -> (r: Result<(), K::Error>) {
        let out = self.map.apply(item);
        self.sink.accept(out)
    }
}

/// Feeding records to a mapping sink is feeding their images to the sink
/// behind it.
pub proof fn lemma_feed_mapped<'a, A, F: Transform<A>, K: Sink<F::Output>>(
    f: F,
    m: K::Model,
    items: Seq<A>,
)
    ensures
        feed::<A, MapSink<'a, F, K>>((f, m), items) == (Fed::<(F, K::Model), K::Error> {
            model: (f, feed::<F::Output, K>(m, images(f, items)).model),
            taken: feed::<F::Output, K>(m, images(f, items)).taken,
            error: feed::<F::Output, K>(m, images(f, items)).error,
        }),
    decreases items.len(),
{
    if items.len() > 0 {
        assert(images(f, items)[0] == f.image(items[0]));
        assert(images(f, items).skip(1) =~= images(f, items.skip(1)));
        if let Ok(next) = K::offer(m, f.image(items[0])) {
            lemma_feed_mapped::<A, F, K>(f, next, items.skip(1));
        }
    }
}

/// A source that yields the records of `source`, each passed through `map`.
///
/// Nothing is stored in between: each record goes through the transform
/// once, when the wrapped source hands it over, and on to the consumer
/// before the next one is asked for.
pub struct MapSource<S, F> {
    pub source: S,
    pub map: F,
}

impl<S: Source, F: Transform<S::Item>> MapSource<S, F> {
    /// Wraps `source` so that each of its records goes through `map`.
    pub fn new(source: S, map: F) -> (m: Self)
        ensures
            m.source == source,
            m.map == map,
            m.wf() == (source.wf() && map.wf()),
            m.rest() == mapped(map, source.rest()),
            m.hint() == source.hint(),
    {
        MapSource { source, map }
    }
}

impl<S: Source, F: Transform<S::Item>> Source for MapSource<S, F> {
    type Item = F::Output;

    type Error = S::Error;

    open spec fn wf(&self) -> bool {
        self.source.wf() && self.map.wf()
    }

    open spec fn rest(&self) -> Rest<F::Output, S::Error> {
        mapped(self.map, self.source.rest())
    }

    open spec fn hint(&self) -> (usize, Option<usize>) {
        self.source.hint()
    }

    /// Polls the wrapped source once, with the transform put between it and
    /// `sink`: what the poll does to the wrapped source and what it answers
    /// is what one poll of that source does with a sink that maps.
    fn try_for_some_item<K: Sink<F::Output>>(&mut self, sink: K) -> (r: (
        K,
        StreamResult<bool, S::Error, K::Error>,
    ))
        ensures
            final(self).map == old(self).map,
            polled::<S::Item, S::Error, MapSink<'_, F, K>>(
                old(self).source.rest(),
                final(self).source.rest(),
                (old(self).map, sink.model()),
                (old(self).map, r.0.model()),
                r.1,
            ),
    {
        let ghost before = self.source.rest().pending;
        let (back, answer) = self.source.try_for_some_item(MapSink { map: &self.map, sink });
        proof {
            let n = before.len() - self.source.rest().pending.len();
            lemma_feed_mapped::<S::Item, F, K>(self.map, sink.model(), before.take(n));
            assert(images(self.map, before).take(n) =~= images(self.map, before.take(n)));
            assert(images(self.map, before).skip(n) =~= images(self.map, before.skip(n)));
        }
        (back.sink, answer)
    }

    /// The size hint of the wrapped source: the transform neither adds nor
    /// drops a record.
    fn size_hint_items(&self) -> (r: (usize, Option<usize>))
        ensures
            r == self.source.hint(),
    {
        self.source.size_hint_items()
    }
}

/// The records of a stream as a pull-style consumer meets them: each pending
/// record as `Ok`, then the failure, if there is one, as a last `Err`.
pub open spec fn pulled<T, E>(rest: Rest<T, E>) -> Seq<Result<T, E>> {
    rest.pending.map_values(|t: T| Ok::<T, E>(t)) + match rest.failure {
        Some(e) => seq![Err::<T, E>(e)],
        None => Seq::empty(),
    }
}

/// The sink through which the bridge fills its queue: it refuses nothing.
struct Buffer<T, E> {
    queue: VecDeque<Result<T, E>>,
}

impl<T, E> Sink<T> for Buffer<T, E> {
    type Error = Infallible;

    type Model = Seq<Result<T, E>>;

    closed spec fn wf(&self) -> bool {
        true
    }

    closed spec fn model(&self) -> Seq<Result<T, E>> {
        self.queue@
    }

    closed spec fn offer(m: Seq<Result<T, E>>, item: T) -> Result<Seq<Result<T, E>>, Infallible> {
        Ok(m.push(Ok(item)))
    }

    fn accept(&mut self, item: T) -> (r: Result<(), Infallible>) {
        self.queue.push_back(Ok(item));
        Ok(())
    }
}

/// The queue takes every record of a run, each as `Ok`, behind what it held.
proof fn lemma_feed_buffer<T, E>(held: Seq<Result<T, E>>, items: Seq<T>)
    ensures
        feed::<T, Buffer<T, E>>(held, items) == (Fed::<Seq<Result<T, E>>, Infallible> {
            model: held + items.map_values(|t: T| Ok::<T, E>(t)),
            taken: items.len(),
            error: None,
        }),
    decreases items.len(),
{
    let wrap = |t: T| Ok::<T, E>(t);
    if items.len() == 0 {
        assert(held + items.map_values(wrap) =~= held);
    } else {
        lemma_feed_buffer::<T, E>(held.push(Ok(items[0])), items.skip(1));
        assert(held.push(Ok(items[0])) + items.skip(1).map_values(wrap) =~= held
            + items.map_values(wrap));
    }
}

/// The pull-style view of a [`MapSource`]: `next` hands out its records one
/// at a time.
///
/// A poll of the source may deliver several records at once. They wait in a
/// queue, which is emptied before the source is polled again, so the queue
/// never holds more than one poll's worth. A producer error is handed out
/// once, after every record that came before it, and nothing after it: the
/// source is never polled again once it is exhausted or has failed.
pub struct MapSourceIterator<S, F, T, E> {
    source: S,
    map: F,
    buffer: VecDeque<Result<T, E>>,
    done: bool,
}

/// What a bridge has still to hand out: the queue, and then, unless the
/// source is done with, what the source has left.
pub open spec fn outstanding<A, E, F: Transform<A>>(
    queue: Seq<Result<F::Output, E>>,
    done: bool,
    map: F,
    rest: Rest<A, E>,
) -> Seq<Result<F::Output, E>> {
    if done {
        queue
    } else {
        queue + pulled(mapped(map, rest))
    }
}

/// An error in the queue is its last entry, and the source is done with
/// once the queue holds one.
pub open spec fn queue_ok<T, E>(queue: Seq<Result<T, E>>, done: bool) -> bool {
    forall|i: int| 0 <= i < queue.len() && (#[trigger] queue[i]) is Err ==> done && i + 1 == queue.len()
}

impl<S: Source, F: Transform<S::Item>> MapSource<S, F> {
    /// Turns the source into its pull-style view, which has everything
    /// still to hand out.
    pub fn into_iter(self) -> (it: MapSourceIterator<S, F, F::Output, S::Error>)
        requires
            self.wf(),
        ensures
            it.wf(),
            it.queued().len() == 0,
            !it.finished(),
            it.transform() == self.map,
            it.upstream() == self.source.rest(),
            it.outputs() == pulled(self.rest()),
            it.hint() == self.hint(),
    {
        let it = MapSourceIterator {
            source: self.source,
            map: self.map,
            buffer: VecDeque::new(),
            done: false,
        };
        proof {
            assert(it.buffer@ + pulled(self.rest()) =~= pulled(self.rest()));
        }
        it
    }
}

impl<S: Source, F: Transform<S::Item>> MapSourceIterator<S, F, F::Output, S::Error> {
    /// The bridge's invariant: source and transform are well formed, and an
    /// error in the queue is its last entry, with the source done with.
    pub closed spec fn wf(&self) -> bool {
        &&& self.source.wf()
        &&& self.map.wf()
        &&& queue_ok(self.buffer@, self.done)
    }

    /// What waits in the queue, the next entry to hand out first.
    pub closed spec fn queued(&self) -> Seq<Result<F::Output, S::Error>> {
        self.buffer@
    }

    /// Whether the source is done with: it is exhausted or has failed, and
    /// is not polled again.
    pub closed spec fn finished(&self) -> bool {
        self.done
    }

    /// The transform that each record goes through.
    pub closed spec fn transform(&self) -> F {
        self.map
    }

    /// What is left of the source's stream.
    pub closed spec fn upstream(&self) -> Rest<S::Item, S::Error> {
        self.source.rest()
    }

    /// Everything that `next` has still to hand out, in order.
    pub open spec fn outputs(&self) -> Seq<Result<F::Output, S::Error>> {
        outstanding(self.queued(), self.finished(), self.transform(), self.upstream())
    }

    /// The size hint of the underlying source.
    pub closed spec fn hint(&self) -> (usize, Option<usize>) {
        self.source.hint()
    }

    /// Hands out the next record, or the producer's error, or `None` at the
    /// end; `None` is then the answer of every later call.
    ///
    /// The source is polled only when the queue is empty and the source is
    /// not done with. After `None` or an error it is done with.
    pub fn next(&mut self) -> (r: Option<Result<F::Output, S::Error>>)
        requires
            old(self).wf(),
        ensures
            final(self).wf(),
            final(self).transform() == old(self).transform(),
            old(self).outputs().len() == 0 ==> r is None && final(self).outputs().len() == 0,
            old(self).outputs().len() > 0 ==> r == Some(old(self).outputs()[0]) && final(self).outputs() == old(self).outputs().skip(1),
            old(self).queued().len() > 0 || old(self).finished() ==> final(self).upstream() == old(self).upstream() && final(self).finished() == old(self).finished(),
            old(self).queued().len() > 0 ==> final(self).queued() == old(self).queued().skip(1),
            r is None ==> final(self).finished(),
            r matches Some(Err(_)) ==> final(self).finished() && final(self).queued().len() == 0,
    {
        let ghost idle = self.buffer@.len() > 0 || self.done;
        let mut buffer = VecDeque::new();
        std::mem::swap(&mut self.buffer, &mut buffer);
        while buffer.len() == 0 && !self.done
            invariant
                self.source.wf(),
                self.map.wf(),
                self.map == old(self).map,
                idle == (old(self).buffer@.len() > 0 || old(self).done),
                idle ==> self.source == old(self).source && self.done == old(self).done
                    && buffer@ == old(self).buffer@,
                queue_ok(buffer@, self.done),
                outstanding(buffer@, self.done, self.map, self.source.rest()) == old(self).outputs(),
            decreases
                    (if self.done {
                        0
                    } else {
                        1 + self.source.rest().budget
                    }),
        {
            let ghost before = self.source.rest();
            let ghost held = buffer@;
            let (back, answer) = self.source.try_for_some_item(
                MapSink { map: &self.map, sink: Buffer { queue: buffer } },
            );
            buffer = back.sink.queue;
            proof {
                let n = before.pending.len() - self.source.rest().pending.len();
                let burst = before.pending.take(n);
                let wrap = |t: F::Output| Ok::<F::Output, S::Error>(t);
                lemma_feed_mapped::<S::Item, F, Buffer<F::Output, S::Error>>(self.map, held, burst);
                lemma_feed_buffer::<F::Output, S::Error>(held, images(self.map, burst));
                assert(images(self.map, before.pending).map_values(wrap) =~= images(
                    self.map,
                    burst,
                ).map_values(wrap) + images(self.map, before.pending.skip(n)).map_values(wrap));
                assert(buffer@ == held + images(self.map, burst).map_values(wrap));
            }
            match answer {
                Ok(more) => {
                    if !more {
                        self.done = true;
                    }
                },
                Err(StreamError::SourceError(e)) => {
                    buffer.push_back(Err(e));
                    self.done = true;
                },
                Err(StreamError::SinkError(_)) => {
                    self.done = true;
                },
            }
            proof {
                assert(outstanding(buffer@, self.done, self.map, self.source.rest()) =~= old(self).outputs());
            }
        }
        std::mem::swap(&mut self.buffer, &mut buffer);
        let ghost queue = self.buffer@;
        let front = self.buffer.pop_front();
        proof {
            if queue.len() > 0 {
                assert(queue.subrange(1, queue.len() as int) =~= queue.skip(1));
                if !self.done {
                    assert(queue.skip(1) + pulled(mapped(self.map, self.source.rest()))
                        =~= old(self).outputs().skip(1));
                }
            }
        }
        front
    }

    /// The size hint of the underlying source: a bound on the records that
    /// the source has still to produce, those in the queue not counted.
    pub fn size_hint(&self) -> (r: (usize, Option<usize>))
        ensures
            r == self.hint(),
    {
        self.source.size_hint_items()
    }
}

/// Pushed into a collector or pulled one at a time, a mapped stream gives
/// the same records: the image of each record of the wrapped source, in the
/// source's order.
pub proof fn lemma_map_push_and_pull_agree<A, E, F: Transform<A>>(f: F, rest: Rest<A, E>)
    requires
        rest.failure is None,
    ensures
        feed::<F::Output, Collector<F::Output>>(
            (Seq::empty(), None),
            mapped(f, rest).pending,
        ).model.0 == images(f, rest.pending),
        feed::<F::Output, Collector<F::Output>>(
            (Seq::empty(), None),
            mapped(f, rest).pending,
        ).error is None,
        pulled(mapped(f, rest)) == images(f, rest.pending).map_values(
            |t: F::Output| Ok::<F::Output, E>(t),
        ),
        images(f, rest.pending).len() == rest.pending.len(),
        forall|i: int|
            0 <= i < rest.pending.len() ==> #[trigger] images(f, rest.pending)[i] == f.image(
                rest.pending[i],
            ),
{
    let out = images(f, rest.pending);
    lemma_feed_collector::<F::Output>(Seq::empty(), None, out);
    assert(Seq::<F::Output>::empty() + out.take(out.len() as int) =~= out);
    assert(pulled(mapped(f, rest)) =~= out.map_values(|t: F::Output| Ok::<F::Output, E>(t)));
}

/// A transform that returns each record as it is leaves a stream as it was.
pub proof fn lemma_map_identity<A, E, F: Transform<A, Output = A>>(f: F, rest: Rest<A, E>)
    requires
        forall|a: A| #[trigger] f.image(a) == a,
    ensures
        images(f, rest.pending) == rest.pending,
        mapped(f, rest) == rest,
        pulled(mapped(f, rest)) == pulled(rest),
{
    assert(images(f, rest.pending) =~= rest.pending);
}

} // verus!
