//! Folding the events that fall on one instant into one.

use vstd::prelude::*;
use crate::apply::Reducer;
use crate::source::{Source, Step, emits, ends_within, lemma_ends_more, trace};

verus! {

/// `source` with every run of events at delay 0 folded into the event before
/// it: the run's first member keeps its delay, and its value is `reduce`
/// applied along the run, from the left.
pub struct Coalesce<S: Source, F> {
    pub source: S,
    /// The event that later events at delay 0 are folded into.
    pub head: Option<(u64, S::Event)>,
    pub reduce: F,
    /// Whether `source` has reported its end.
    pub finished: bool,
}

impl<S: Source, F: Reducer<S::Event>> Coalesce<S, F> {
    /// The next step calls `reduce` only where it may be called.
    pub open spec fn ready(&self) -> bool {
        match (self.source.stepped().0, self.head) {
            (Step::Emit(d, e), Some((_, held))) => !self.finished && d == 0
                ==> self.reduce.accepts(held, e),
            _ => true,
        }
    }

    /// The outcome of one step and the state it leaves.
    pub open spec fn advanced(&self) -> (Step<S::Event>, Self) {
        if self.finished {
            (Step::Done, *self)
        } else {
            let (out, source) = self.source.stepped();
            let reduce = self.reduce;
            match out {
                Step::Emit(d, e) => match self.head {
                    None => (
                        Step::Skip,
                        Coalesce { source, head: Some((d, e)), reduce, finished: false },
                    ),
                    Some((d1, e1)) => if d == 0 {
                        (
                            Step::Skip,
                            Coalesce {
                                source,
                                head: Some((d1, reduce.reduced(e1, e))),
                                reduce,
                                finished: false,
                            },
                        )
                    } else {
                        (
                            Step::Emit(d1, e1),
                            Coalesce { source, head: Some((d, e)), reduce, finished: false },
                        )
                    },
                },
                Step::Skip => (
                    Step::Skip,
                    Coalesce { source, head: self.head, reduce, finished: false },
                ),
                Step::Done => match self.head {
                    Some((d1, e1)) => (
                        Step::Emit(d1, e1),
                        Coalesce { source, head: None, reduce, finished: true },
                    ),
                    None => (Step::Done, Coalesce { source, head: None, reduce, finished: true }),
                },
            }
        }
    }

    /// The state after `n` steps.
    pub open spec fn later(&self, n: nat) -> Self
        decreases n,
    {
        if n == 0 {
            *self
        } else {
            self.advanced().1.later((n - 1) as nat)
        }
    }
}

impl<S: Source, F: Reducer<S::Event>> Source for Coalesce<S, F> {
    type Event = S::Event;

    open spec fn inv(&self) -> bool {
        &&& self.source.inv()
        &&& forall|n: nat| (#[trigger] self.later(n)).ready()
    }

    open spec fn stepped(&self) -> (Step<S::Event>, Self) {
        self.advanced()
    }

    fn step(&mut self) -> (out: Step<S::Event>) {
        let ghost next = self.advanced().1;
        proof {
            assert(self.later(0).ready());
            assert forall|n: nat| (#[trigger] next.later(n)).ready() by {
                assert(self.later(n + 1).ready());
            }
        }
        if self.finished {
            return Step::Done;
        }
        let out = match self.source.step() {
            Step::Emit(d, e) => match self.head.take() {
                None => {
                    self.head = Some((d, e));
                    Step::Skip
                },
                Some((d1, e1)) => {
                    if d == 0 {
                        let folded = self.reduce.reduce(e1, e);
                        self.head = Some((d1, folded));
                        Step::Skip
                    } else {
                        self.head = Some((d, e));
                        Step::Emit(d1, e1)
                    }
                },
            },
            Step::Skip => Step::Skip,
            Step::Done => {
                self.finished = true;
                match self.head.take() {
                    Some((d1, e1)) => Step::Emit(d1, e1),
                    None => Step::Done,
                }
            },
        };
        assert(*self == next);
        out
    }
}

/// Whatever a coalescing stream has done, it still holds the reducer it was
/// made with.
pub proof fn lemma_coalesce_later<S: Source, F: Reducer<S::Event>>(c: Coalesce<S, F>, n: nat)
    ensures
        c.later(n).reduce == c.reduce,
    decreases n,
{
    if n > 0 {
        lemma_coalesce_later(c.advanced().1, (n - 1) as nat);
    }
}

/// A coalescing stream may be read where its source may be read and its
/// reducer may be called on every two values.
pub proof fn lemma_coalesce_inv<S: Source, F: Reducer<S::Event>>(c: Coalesce<S, F>)
    requires
        c.source.inv(),
        forall|a: S::Event, b: S::Event| c.reduce.accepts(a, b),
    ensures
        c.inv(),
{
    assert forall|n: nat| (#[trigger] c.later(n)).ready() by {
        lemma_coalesce_later(c, n);
    }
}

/// The events `events` after the event `head`, with every run of events at
/// delay 0 folded by `reduce`, from the left, into the event before the run.
pub open spec fn folded<E, F: Reducer<E>>(head: Option<(u64, E)>, events: Seq<(u64, E)>, reduce: F)
    -> Seq<(u64, E)>
    decreases events.len(),
{
    if events.len() == 0 {
        match head {
            Some(held) => seq![held],
            None => Seq::empty(),
        }
    } else {
        match head {
            None => folded(Some(events[0]), events.drop_first(), reduce),
            Some((d, e)) => if events[0].0 == 0 {
                folded(Some((d, reduce.reduced(e, events[0].1))), events.drop_first(), reduce)
            } else {
                seq![(d, e)] + folded(Some(events[0]), events.drop_first(), reduce)
            },
        }
    }
}

/// Coalescing a stream that ends gives a stream that ends, and it emits
/// what `folded` makes of the events.
pub proof fn lemma_coalesce<S: Source, F: Reducer<S::Event>>(c: Coalesce<S, F>, n: nat)
    requires
        !c.finished,
        ends_within(c.source, n),
    ensures
        ends_within(c, n + 1),
        trace(c, n + 1) == folded(c.head, trace(c.source, n), c.reduce),
    decreases n,
{
    let next = c.stepped().1;
    let events = trace(c.source, n);
    let rest = trace(c.source.stepped().1, (n - 1) as nat);
    match c.source.stepped().0 {
        Step::Done => {
            assert(next.stepped().0 is Done);
            assert(ends_within(next, 1));
            lemma_ends_more(next, 1, n);
            assert(trace(next, 1) == Seq::<(u64, S::Event)>::empty());
            match c.head {
                Some(held) => {
                    assert(seq![held] + Seq::empty() == seq![held]);
                },
                None => {},
            }
        },
        Step::Skip => {
            lemma_coalesce(next, (n - 1) as nat);
        },
        Step::Emit(d, e) => {
            assert(events[0] == (d, e));
            assert(events.drop_first() == rest);
            lemma_coalesce(next, (n - 1) as nat);
        },
    }
}

/// `coalesce` of a stream that ends ends, and it emits the events of the
/// stream with every run at delay 0 folded into the event before it.
pub proof fn lemma_coalesce_emits<S: Source, F: Reducer<S::Event>>(
    source: S,
    events: Seq<(u64, S::Event)>,
    reduce: F,
)
    requires
        emits(source, events),
    ensures
        emits(
            Coalesce { source, head: None, reduce, finished: false },
            folded(None, events, reduce),
        ),
{
    let n = choose|n: nat| ends_within(source, n) && trace(source, n) == events;
    let c = Coalesce { source, head: None, reduce, finished: false };
    lemma_coalesce(c, n);
    assert(ends_within(c, n + 1) && trace(c, n + 1) == folded(None, events, reduce));
}

} // verus!
