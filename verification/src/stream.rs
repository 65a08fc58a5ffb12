//! `Stream`: the handle through which a producer is composed and read.

use vstd::prelude::*;
use crate::apply::{Mapper, Reducer};
use crate::basic::{Batch, Empty, Once, Pairs, Queue};
use crate::coalesce::Coalesce;
use crate::discard::Discard;
use crate::lazy::Lazy;
use crate::merge::{Fold, Merge, Slot};
use crate::replay::Replay;
use crate::source::{
    Source,
    Step,
    ends_within,
    finite,
    pulled,
    responsive,
    run,
    settles,
    trace,
    whole,
};
use crate::splice::{Chain, ChainAt, cut, put_off};
use crate::timeline::{lemma_span_first, lemma_span_push, lemma_span_take, span};
use crate::transform::{Flatten, Mapped};
use crate::unfold::Unfold;

verus! {

/// A lazy, possibly endless sequence of timed events. Every combinator takes
/// the stream by value and hands back the only handle to the result.
pub struct Stream<S> {
    pub source: S,
}

impl<E> Stream<Empty<E>> {
    /// The stream without events.
    pub fn empty() -> (r: Self)
        ensures
            r.source == (Empty::<E> { marker: core::marker::PhantomData }),
    {
        Stream { source: Empty { marker: core::marker::PhantomData } }
    }
}

impl<E> Stream<Once<E>> {
    /// The stream of the one event `event`, at delay 0.
    pub fn immediate(event: E) -> (r: Self)
        ensures
            r.source == (Once { item: Some(event) }),
    {
        Stream { source: Once { item: Some(event) } }
    }
}

impl<E> Stream<Pairs<E>> {
    /// The stream of the events of `pairs`, in their order.
    pub fn from_iter(pairs: Vec<(u64, E)>) -> (r: Self)
        ensures
            r.source == (Pairs { queue: Queue::of(pairs@) }),
    {
        Stream { source: Pairs { queue: Queue::from_vec(pairs) } }
    }
}

impl<S: Source, F: FnOnce() -> Stream<S>> Stream<Lazy<S, F>> {
    /// The stream that `fun` returns, built when the first event is asked
    /// for and not before.
    pub fn lazy(fun: F) -> (r: Self)
        ensures
            r.source == Lazy::<S, F>::Before(Some(fun)),
    {
        Stream { source: Lazy::Before(Some(fun)) }
    }
}

impl<T, E, F: Mapper<T, Out = Option<((u64, E), T)>>> Stream<Unfold<T, F>> {
    /// The stream that `grow` unfolds from `seed`: each call of `grow` on
    /// the state gives the next event and the next state, or ends the
    /// stream. Nothing is computed before it is asked for.
    pub fn unfold(seed: T, grow: F) -> (r: Self)
        ensures
            r.source == (Unfold { state: Some(seed), grow }),
    {
        Stream { source: Unfold { state: Some(seed), grow } }
    }
}

impl<S: Source> Stream<Fold<S>> {
    /// The streams of `streams` merged from the left; `empty()` where there
    /// are none.
    pub fn merge_all(streams: Vec<Stream<S>>) -> (r: Self)
        ensures
            r.source == Fold::of(streams@),
    {
        let ghost all = streams@;
        let total = streams.len();
        let mut rest = Queue::from_vec(streams);
        let mut fold = Fold::Nil;
        let mut taken: usize = 0;
        assert(all.subrange(0, all.len() as int) == all);
        loop
            invariant
                all == streams@,
                taken <= all.len(),
                all.len() == total,
                rest == Queue::of(all.subrange(taken as int, all.len() as int)),
                fold == Fold::of(all.subrange(0, taken as int)),
            decreases all.len() - taken,
        {
            let ghost tail = all.subrange(taken as int, all.len() as int);
            let ghost head = all.subrange(0, taken as int);
            match rest.pop_front() {
                None => {
                    assert(tail.len() == 0);
                    assert(all.subrange(0, taken as int) == all);
                    return Stream { source: fold };
                },
                Some(stream) => {
                    proof {
                        assert(tail.len() > 0);
                        assert(stream == all[taken as int]);
                        assert(tail.subrange(1, tail.len() as int) == all.subrange(
                            taken + 1,
                            all.len() as int,
                        ));
                        let grown = all.subrange(0, taken + 1);
                        assert(grown.drop_last() == head);
                        assert(grown.last() == stream);
                    }
                    fold = if taken == 0 {
                        Fold::Leaf(stream.source)
                    } else {
                        Fold::Node {
                            left: Box::new(fold),
                            right: stream.source,
                            left_head: Slot::Fresh,
                            right_head: Slot::Fresh,
                        }
                    };
                    taken = taken + 1;
                },
            }
        }
    }
}

impl<S: Source> Stream<S> where S::Event: Batch {
    /// The values of the batches of this stream, each an event of its own:
    /// the first value of a batch at the batch's delay, the others at
    /// delay 0.
    pub fn flatten(self) -> (r: Stream<Flatten<S, <S::Event as Batch>::Item>>)
        ensures
            r.source == (Flatten {
                source: self.source,
                batch: Queue::<<S::Event as Batch>::Item>::Nil,
                lead: 0,
            }),
    {
        Stream { source: Flatten { source: self.source, batch: Queue::Nil, lead: 0 } }
    }
}

impl<S: Source> Stream<S> {
    /// Pulls the next pair, or `None` at the end.
    pub fn next(&mut self) -> (r: Option<(u64, S::Event)>)
        requires
            old(self).source.inv(),
            responsive(old(self).source),
        ensures
            final(self).source.inv(),
            r == pulled(old(self).source).0,
            final(self).source == pulled(old(self).source).1,
    {
        let ghost mut fuel: nat = choose|fuel: nat| settles(self.source, fuel);
        let ghost start = self.source;
        let ghost fuel0 = fuel;
        loop
            invariant
                self.source.inv(),
                settles(self.source, fuel),
                settles(start, fuel0),
                run(self.source, fuel) == run(start, fuel0),
                start == old(self).source,
                fuel0 == (choose|fuel: nat| settles(start, fuel)),
            decreases fuel,
        {
            match self.source.step() {
                Step::Emit(d, e) => {
                    return Some((d, e));
                },
                Step::Done => {
                    return None;
                },
                Step::Skip => {
                    proof {
                        fuel = (fuel - 1) as nat;
                    }
                },
            }
        }
    }

    /// Reads a stream that ends to its end and returns its events.
    pub fn into_vec(self) -> (events: Vec<(u64, S::Event)>)
        requires
            self.source.inv(),
            finite(self.source),
        ensures
            events@ == whole(self.source),
    {
        let mut source = self.source;
        let mut events = Vec::new();
        let ghost mut n: nat = choose|n: nat| ends_within(source, n);
        let ghost n0 = n;
        loop
            invariant
                source.inv(),
                ends_within(source, n),
                events@ + trace(source, n) == trace(self.source, n0),
                n0 == (choose|n: nat| ends_within(self.source, n)),
            decreases n,
        {
            let ghost before = events@;
            let ghost rest = trace(source.stepped().1, (n - 1) as nat);
            match source.step() {
                Step::Emit(d, e) => {
                    events.push((d, e));
                    proof {
                        assert(before + (seq![(d, e)] + rest) == before.push((d, e)) + rest);
                        n = (n - 1) as nat;
                    }
                },
                Step::Skip => {
                    proof {
                        n = (n - 1) as nat;
                    }
                },
                Step::Done => {
                    assert(events@ + Seq::empty() == events@);
                    return events;
                },
            }
        }
    }

    /// All of this stream, then all of `other`, delays untouched. Where this
    /// stream does not end, `other` is never reached.
    pub fn chain<T: Source<Event = S::Event>>(self, other: Stream<T>) -> (r: Stream<Chain<S, T>>)
        ensures
            r.source == (Chain { first: self.source, second: other.source, switched: false }),
    {
        Stream { source: Chain { first: self.source, second: other.source, switched: false } }
    }

    /// This stream for as long as its events fall within `threshold` ticks
    /// of its start, then `other`, whose clock starts `threshold` ticks after
    /// the start of this one. The first event of this stream that would fall
    /// later is dropped, and this stream with it.
    pub fn chain_at<T: Source<Event = S::Event>>(self, threshold: u64, other: Stream<T>) -> (r:
        Stream<ChainAt<S, T>>)
        ensures
            r.source == (ChainAt {
                first: self.source,
                second: other.source,
                threshold,
                switched: false,
            }),
    {
        Stream {
            source: ChainAt { first: self.source, second: other.source, threshold, switched: false },
        }
    }

    /// This stream with each run of events at delay 0 folded by `reduce`
    /// into the event before the run.
    pub fn coalesce<F: Reducer<S::Event>>(self, reduce: F) -> (r: Stream<
        Coalesce<S, F>,
    >)
        ensures
            r.source == (Coalesce { source: self.source, head: None, reduce, finished: false }),
    {
        Stream { source: Coalesce { source: self.source, head: None, reduce, finished: false } }
    }

    /// This stream with every event `duration` ticks later.
    pub fn delay(self, duration: u64) -> (r: Stream<ChainAt<Empty<S::Event>, S>>)
        ensures
            r.source == put_off(self.source, duration),
    {
        Stream::empty().chain_at(duration, self)
    }

    /// This stream without the events of its first `duration` ticks: those
    /// that fall before `duration` are discarded, and the first one kept
    /// comes as much later as it lay beyond that point.
    pub fn drop(self, duration: u64) -> (r: Stream<Discard<S>>)
        ensures
            r.source == (Discard { source: self.source, duration }),
    {
        Stream { source: Discard { source: self.source, duration } }
    }

    /// The values that `fun` makes of each event, each an event of its own.
    pub fn flat_map<F: Mapper<S::Event>>(self, fun: F) -> (r: Stream<
        Flatten<Mapped<S, F>, <F::Out as Batch>::Item>,
    >) where F::Out: Batch
        ensures
            r.source == (Flatten {
                source: Mapped { source: self.source, fun },
                batch: Queue::<<F::Out as Batch>::Item>::Nil,
                lead: 0,
            }),
    {
        self.map(fun).flatten()
    }

    /// This stream with `fun` applied to the value of each event.
    pub fn map<F: Mapper<S::Event>>(self, fun: F) -> (r: Stream<Mapped<S, F>>)
        ensures
            r.source == (Mapped { source: self.source, fun }),
    {
        Stream { source: Mapped { source: self.source, fun } }
    }

    /// This stream and `other` in one, ordered by the time at which each
    /// event falls; of two that fall together the one of this stream comes
    /// first.
    pub fn merge<T: Source<Event = S::Event>>(self, other: Stream<T>) -> (r: Stream<Merge<S, T>>)
        ensures
            r.source == (Merge {
                left: self.source,
                right: other.source,
                left_head: Slot::Fresh,
                right_head: Slot::Fresh,
            }),
    {
        Stream {
            source: Merge {
                left: self.source,
                right: other.source,
                left_head: Slot::Fresh,
                right_head: Slot::Fresh,
            },
        }
    }

    /// This stream up to `duration` ticks from its start: the first event
    /// that would fall later is dropped, and all after it.
    pub fn take(self, duration: u64) -> (r: Stream<ChainAt<S, Empty<S::Event>>>)
        ensures
            r.source == cut(self.source, duration),
            self.source.inv() ==> r.source.inv(),
    {
        let r = self.chain_at(duration, Stream::empty());
        proof {
            if self.source.inv() {
                assert forall|n: nat| (#[trigger] r.source.later(n)).fits() by {}
            }
        }
        r
    }
}

impl<E: Copy> Stream<Replay<E>> {
    /// `sample` replayed for ever, a round every `interval` ticks.
    pub fn replay_every(sample: Vec<(u64, E)>, interval: u64) -> (r: Self)
        requires
            span(sample@) <= interval,
        ensures
            r.source.inv(),
            r.source.sample == sample,
            span(sample@) + r.source.gap == interval,
            r.source.pos == 0,
            !r.source.wrapped,
    {
        let mut gap = interval;
        let mut i: usize = 0;
        while i < sample.len()
            invariant
                i <= sample@.len(),
                span(sample@) <= interval,
                span(sample@.take(i as int)) + gap == interval,
            decreases sample@.len() - i,
        {
            proof {
                lemma_span_take(sample@, i as int);
                lemma_span_take(sample@, i + 1);
            }
            gap = gap - sample[i].0;
            i = i + 1;
        }
        proof {
            assert(sample@.take(sample@.len() as int) == sample@);
            if sample@.len() > 0 {
                lemma_span_first(sample@);
            }
        }
        Stream { source: Replay { sample, gap, pos: 0, wrapped: false } }
    }
}

impl<S: Source> Stream<S> where S::Event: Copy {
    /// What this stream emits within `interval` ticks of its start, replayed
    /// for ever, a round every `interval` ticks.
    pub fn repeat_every(self, interval: u64) -> (r: Stream<Replay<S::Event>>)
        requires
            self.source.inv(),
            finite(cut(self.source, interval)),
        ensures
            r.source.inv(),
            r.source.sample@ == whole(cut(self.source, interval)),
            span(r.source.sample@) + r.source.gap == interval,
            r.source.pos == 0,
            !r.source.wrapped,
    {
        let mut head = ChainAt {
            first: self.source,
            second: Empty { marker: core::marker::PhantomData },
            threshold: interval,
            switched: false,
        };
        let ghost start = head;
        let mut sample: Vec<(u64, S::Event)> = Vec::new();
        let ghost mut n: nat = choose|n: nat| ends_within(head, n);
        let ghost n0 = n;
        proof {
            assert forall|k: nat| (#[trigger] head.later(k)).fits() by {}
        }
        loop
            invariant
                head.inv(),
                start == cut(self.source, interval),
                ends_within(head, n),
                sample@ + trace(head, n) == trace(start, n0),
                n0 == (choose|n: nat| ends_within(start, n)),
                span(sample@) + head.threshold == interval,
            decreases n,
        {
            let ghost before = sample@;
            let ghost rest = trace(head.stepped().1, (n - 1) as nat);
            match head.step() {
                Step::Emit(d, e) => {
                    sample.push((d, e));
                    proof {
                        assert(before + (seq![(d, e)] + rest) == before.push((d, e)) + rest);
                        lemma_span_push(before, d, e);
                        n = (n - 1) as nat;
                    }
                },
                Step::Skip => {
                    proof {
                        n = (n - 1) as nat;
                    }
                },
                Step::Done => {
                    assert(sample@ + Seq::empty() == sample@);
                    return Stream::replay_every(sample, interval);
                },
            }
        }
    }
}

} // verus!
