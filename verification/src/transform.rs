//! Changing the values of a stream, and unpacking batches of values.

use vstd::prelude::*;
use crate::apply::Mapper;
use crate::basic::{Batch, Queue};
use crate::source::{Source, Step, emits, ends_within, lemma_ends_more, trace};

verus! {

/// `source` with `fun` applied to the value of each event, in their order,
/// delays unchanged.
pub struct Mapped<S, F> {
    pub source: S,
    pub fun: F,
}

impl<S: Source, F: Mapper<S::Event>> Mapped<S, F> {
    /// The next step calls `fun` only where it may be called.
    pub open spec fn ready(&self) -> bool {
        match self.source.stepped().0 {
            Step::Emit(_, e) => self.fun.accepts(e),
            _ => true,
        }
    }

    /// The outcome of one step and the state it leaves.
    pub open spec fn advanced(&self) -> (Step<F::Out>, Self) {
        let (out, source) = self.source.stepped();
        match out {
            Step::Emit(d, e) => (
                Step::Emit(d, self.fun.applied(e).0),
                Mapped { source, fun: self.fun.applied(e).1 },
            ),
            Step::Skip => (Step::Skip, Mapped { source, fun: self.fun }),
            Step::Done => (Step::Done, Mapped { source, fun: self.fun }),
        }
    }

    /// The state after `n` steps.
    pub open spec fn later(&self, n: nat) -> Self
        decreases n,
    {
        if n == 0 {
            *self
        } else {
            self.advanced().1.later((n - 1) as nat)
        }
    }
}

impl<S: Source, F: Mapper<S::Event>> Source for Mapped<S, F> {
    type Event = F::Out;

    open spec fn inv(&self) -> bool {
        &&& self.source.inv()
        &&& forall|n: nat| (#[trigger] self.later(n)).ready()
    }

    open spec fn stepped(&self) -> (Step<F::Out>, Self) {
        self.advanced()
    }

    fn step(&mut self) -> (out: Step<F::Out>) {
        let ghost next = self.advanced().1;
        proof {
            assert(self.later(0).ready());
            assert forall|n: nat| (#[trigger] next.later(n)).ready() by {
                assert(self.later(n + 1).ready());
            }
        }
        let out = match self.source.step() {
            Step::Emit(d, e) => Step::Emit(d, self.fun.apply(e)),
            Step::Skip => Step::Skip,
            Step::Done => Step::Done,
        };
        assert(*self == next);
        out
    }
}

/// The values of the batches of `source`, one event each: the first value of
/// a batch comes at the batch's delay, the others at delay 0. A batch without
/// values gives no event, and its delay is not carried over.
pub struct Flatten<S, T> {
    pub source: S,
    /// What is left of the batch in hand.
    pub batch: Queue<T>,
    /// The delay of the next value of the batch in hand.
    pub lead: u64,
}

impl<S: Source> Source for Flatten<S, <S::Event as Batch>::Item> where S::Event: Batch {
    type Event = <S::Event as Batch>::Item;

    open spec fn inv(&self) -> bool {
        self.source.inv()
    }

    open spec fn stepped(&self) -> (Step<<S::Event as Batch>::Item>, Self) {
        match self.batch {
            Queue::Cons(x, rest) => (
                Step::Emit(self.lead, x),
                Flatten { source: self.source, batch: *rest, lead: 0 },
            ),
            Queue::Nil => {
                let (out, source) = self.source.stepped();
                match out {
                    Step::Emit(d, values) => (
                        Step::Skip,
                        Flatten { source, batch: Queue::of(values.contents()), lead: d },
                    ),
                    Step::Skip => (Step::Skip, Flatten { source, batch: Queue::Nil, lead: self.lead }),
                    Step::Done => (Step::Done, Flatten { source, batch: Queue::Nil, lead: self.lead }),
                }
            },
        }
    }

    fn step(&mut self) -> (out: Step<<S::Event as Batch>::Item>) {
        match self.batch.pop_front() {
            Some(x) => {
                let lead = self.lead;
                self.lead = 0;
                Step::Emit(lead, x)
            },
            None => match self.source.step() {
                Step::Emit(d, values) => {
                    self.batch = values.into_queue();
                    self.lead = d;
                    Step::Skip
                },
                Step::Skip => Step::Skip,
                Step::Done => Step::Done,
            },
        }
    }
}

/// `events` with `fun` applied to the value of each, in their order.
pub open spec fn mapped<E, F: Mapper<E>>(events: Seq<(u64, E)>, fun: F) -> Seq<(u64, F::Out)>
    decreases events.len(),
{
    if events.len() == 0 {
        Seq::empty()
    } else {
        seq![(events[0].0, fun.applied(events[0].1).0)] + mapped(
            events.drop_first(),
            fun.applied(events[0].1).1,
        )
    }
}

/// Mapping a stream that ends gives a stream that ends, and it emits the
/// mapped events.
pub proof fn lemma_mapped<S: Source, F: Mapper<S::Event>>(c: Mapped<S, F>, n: nat)
    requires
        ends_within(c.source, n),
    ensures
        ends_within(c, n),
        trace(c, n) == mapped(trace(c.source, n), c.fun),
    decreases n,
{
    let next = c.stepped().1;
    let events = trace(c.source, n);
    match c.source.stepped().0 {
        Step::Done => {},
        Step::Skip => {
            lemma_mapped(next, (n - 1) as nat);
        },
        Step::Emit(d, e) => {
            assert(events[0] == (d, e));
            assert(events.drop_first() == trace(c.source.stepped().1, (n - 1) as nat));
            lemma_mapped(next, (n - 1) as nat);
        },
    }
}

/// The values `items` as events: the first at delay `lead`, the others at
/// delay 0.
pub open spec fn unpacked<T>(items: Seq<T>, lead: u64) -> Seq<(u64, T)>
    decreases items.len(),
{
    if items.len() == 0 {
        Seq::empty()
    } else {
        seq![(lead, items[0])] + unpacked(items.drop_first(), 0)
    }
}

/// The values of the batches of `events`, each batch unpacked at its delay.
pub open spec fn flattened<B: Batch>(events: Seq<(u64, B)>) -> Seq<(u64, B::Item)>
    decreases events.len(),
{
    if events.len() == 0 {
        Seq::empty()
    } else {
        unpacked(events[0].1.contents(), events[0].0) + flattened(events.drop_first())
    }
}

/// The number of values in the batches of `events`.
pub open spec fn volume<B: Batch>(events: Seq<(u64, B)>) -> nat
    decreases events.len(),
{
    if events.len() == 0 {
        0
    } else {
        events[0].1.contents().len() + volume(events.drop_first())
    }
}

/// Flattening a stream that ends gives a stream that ends, and it emits
/// what is left of the batch in hand, then the values of the batches that
/// come.
pub proof fn lemma_flatten<S: Source>(c: Flatten<S, <S::Event as Batch>::Item>, n: nat) where
    S::Event: Batch,

    requires
        ends_within(c.source, n),
    ensures
        ends_within(c, c.batch.items().len() + n + volume(trace(c.source, n))),
        trace(c, c.batch.items().len() + n + volume(trace(c.source, n))) == unpacked(
            c.batch.items(),
            c.lead,
        ) + flattened(trace(c.source, n)),
    decreases c.batch.items().len() + n + volume(trace(c.source, n)),
{
    let next = c.stepped().1;
    let events = trace(c.source, n);
    let cost = c.batch.items().len() + n + volume(events);
    let tail = flattened(events);
    match c.batch {
        Queue::Cons(x, rest) => {
            assert(c.batch.items().drop_first() == rest.items());
            lemma_flatten(next, n);
            assert(seq![(c.lead, x)] + (unpacked(rest.items(), 0) + tail) == (seq![(c.lead, x)]
                + unpacked(rest.items(), 0)) + tail);
        },
        Queue::Nil => {
            assert(unpacked(c.batch.items(), c.lead) + tail == tail);
            match c.source.stepped().0 {
                Step::Done => {
                    lemma_ends_more(c, 1, cost);
                },
                Step::Skip => {
                    lemma_flatten(next, (n - 1) as nat);
                    assert(unpacked(next.batch.items(), next.lead) + tail == tail);
                },
                Step::Emit(d, values) => {
                    let rest = trace(c.source.stepped().1, (n - 1) as nat);
                    assert(events[0] == (d, values));
                    assert(events.drop_first() == rest);
                    Queue::lemma_items_of(values.contents());
                    lemma_flatten(next, (n - 1) as nat);
                },
            }
        },
    }
}

/// `flatten` of a stream that ends ends, and it emits the values of its
/// batches.
pub proof fn lemma_flatten_emits<S: Source>(source: S, events: Seq<(u64, S::Event)>) where
    S::Event: Batch,

    requires
        emits(source, events),
    ensures
        emits(
            Flatten { source, batch: Queue::<<S::Event as Batch>::Item>::Nil, lead: 0 },
            flattened(events),
        ),
{
    let n = choose|n: nat| ends_within(source, n) && trace(source, n) == events;
    let c = Flatten { source, batch: Queue::<<S::Event as Batch>::Item>::Nil, lead: 0 };
    lemma_flatten(c, n);
    assert(unpacked(c.batch.items(), c.lead) + flattened(events) == flattened(events));
    let cost = c.batch.items().len() + n + volume(events);
    assert(ends_within(c, cost) && trace(c, cost) == flattened(events));
}

/// `map` of a stream that ends ends, and it emits the mapped events.
pub proof fn lemma_mapped_emits<S: Source, F: Mapper<S::Event>>(
    source: S,
    events: Seq<(u64, S::Event)>,
    fun: F,
)
    requires
        emits(source, events),
    ensures
        emits(Mapped { source, fun }, mapped(events, fun)),
{
    let n = choose|n: nat| ends_within(source, n) && trace(source, n) == events;
    lemma_mapped(Mapped { source, fun }, n);
}

} // verus!
