//! `Var`: a value that changes over time, held as what it is now and the
//! stream of what replaces it.

use vstd::prelude::*;
use crate::apply::Mapper;
use crate::basic::{Empty, Once, lemma_once_emits};
use crate::replay::Replay;
use crate::source::{
    Source,
    Step,
    emits,
    ends_within,
    finite,
    pulled,
    responsive,
    run,
    settles,
    trace,
    whole,
};
use crate::splice::{Chain, cut, lemma_chain};
use crate::stream::Stream;
use crate::switch::{Phase, Switch};
use crate::timeline::span;
use crate::transform::Mapped;

verus! {

/// A value over time: `present` at time 0, and each event `(d, v)` of
/// `future` puts `v` in its place `d` ticks after the replacement before it.
pub struct Var<T, S> {
    pub present: T,
    pub future: Stream<S>,
}

/// The stream of all values of `var`, the present one first, at delay 0.
pub open spec fn unrolled<T, S: Source<Event = T>>(var: Var<T, S>) -> Chain<Once<T>, S> {
    Chain { first: Once { item: Some(var.present) }, second: var.future.source, switched: false }
}

/// The stream of the values of a `Var` whose future ends emits the present
/// value at delay 0, then the future ones.
pub proof fn lemma_updates_emits<T, S: Source<Event = T>>(var: Var<T, S>, future: Seq<(u64, T)>)
    requires
        emits(var.future.source, future),
    ensures
        emits(unrolled(var), seq![(0u64, var.present)] + future),
{
    let first = Once { item: Some(var.present) };
    lemma_once_emits(var.present);
    let na = choose|n: nat| ends_within(first, n) && trace(first, n) == seq![(0u64, var.present)];
    let nb = choose|n: nat|
        ends_within(var.future.source, n) && trace(var.future.source, n) == future;
    lemma_chain(unrolled(var), na, nb);
    assert(ends_within(unrolled(var), na + nb) && trace(unrolled(var), na + nb) == seq![
        (0u64, var.present),
    ] + future);
}

/// `source` with each `Var` that it emits turned into the stream of its
/// values.
pub struct Updates<O> {
    pub source: O,
}

impl<T, S: Source<Event = T>, O: Source<Event = Var<T, S>>> Source for Updates<O> {
    type Event = Stream<Chain<Once<T>, S>>;

    open spec fn inv(&self) -> bool {
        self.source.inv()
    }

    open spec fn stepped(&self) -> (Step<Stream<Chain<Once<T>, S>>>, Self) {
        let (out, source) = self.source.stepped();
        let next = Updates { source };
        match out {
            Step::Emit(d, var) => (Step::Emit(d, Stream { source: unrolled(var) }), next),
            Step::Skip => (Step::Skip, next),
            Step::Done => (Step::Done, next),
        }
    }

    fn step(&mut self) -> (out: Step<Stream<Chain<Once<T>, S>>>) {
        match self.source.step() {
            Step::Emit(d, var) => Step::Emit(d, var.updates()),
            Step::Skip => Step::Skip,
            Step::Done => Step::Done,
        }
    }
}

impl<T, S> AsRef<T> for Var<T, S> {
    fn as_ref(&self) -> (r: &T)
        ensures
            *r == self.present,
    {
        &self.present
    }
}

impl<T> Var<T, Empty<T>> {
    /// The value that never changes.
    pub fn constant(value: T) -> (r: Self)
        ensures
            r.present == value,
            r.future.source == (Empty::<T> { marker: core::marker::PhantomData }),
    {
        Var { present: value, future: Stream::empty() }
    }
}

impl<T, S: Source<Event = T>> Var<T, S> {
    /// The value that starts as `initial_value` and takes the values of
    /// `updates` as they come.
    pub fn from_updates(initial_value: T, updates: Stream<S>) -> (r: Self)
        ensures
            r == (Var { present: initial_value, future: updates }),
    {
        Var { present: initial_value, future: updates }
    }

    /// The value now.
    pub fn as_value(&self) -> (r: &T)
        ensures
            *r == self.present,
    {
        &self.present
    }

    /// The stream of all values: the present one at delay 0, then the
    /// future ones.
    pub fn updates(self) -> (r: Stream<Chain<Once<T>, S>>)
        ensures
            r.source == unrolled(self),
    {
        Stream::immediate(self.present).chain(self.future)
    }

    /// The value with `func` applied to it at every time: to the present
    /// value first, then to the future ones as they come.
    pub fn map<F: Mapper<T>>(self, func: F) -> (r: Var<F::Out, Mapped<S, F>>)
        requires
            func.accepts(self.present),
        ensures
            r.present == func.applied(self.present).0,
            r.future.source == (Mapped {
                source: self.future.source,
                fun: func.applied(self.present).1,
            }),
    {
        let mut func = func;
        let present = func.apply(self.present);
        Var { present, future: self.future.map(func) }
    }
}

impl<T: Copy, S: Source<Event = T>> Var<T, S> {
    /// The values of the first `interval` ticks, replayed for ever.
    pub fn repeat_every(self, interval: u64) -> (r: Var<T, Replay<T>>)
        requires
            self.future.source.inv(),
            finite(cut(unrolled(self), interval)),
        ensures
            r.present == self.present,
            r.future.source.inv(),
            r.future.source.sample@ == whole(cut(unrolled(self), interval)),
            span(r.future.source.sample@) + r.future.source.gap == interval,
            r.future.source.pos == 0,
            !r.future.source.wrapped,
    {
        let present = self.present;
        Var { present, future: self.updates().repeat_every(interval) }
    }
}

impl<S: Source, O: Source<Event = Stream<S>>> Var<Stream<S>, O> {
    /// The stream that plays, at each time, the stream that is the value
    /// then: the present one until the first replacement arrives, that one
    /// until the second arrives, and so on.
    pub fn sequence(self) -> (r: Stream<Switch<O, S>>)
        ensures
            r.source == (Switch {
                outer: self.future.source,
                current: self.present.source,
                upcoming: None,
                window: 0,
                carry: 0,
                phase: Phase::Closed,
            }),
    {
        Stream {
            source: Switch {
                outer: self.future.source,
                current: self.present.source,
                upcoming: None,
                window: 0,
                carry: 0,
                phase: Phase::Closed,
            },
        }
    }
}

/// The machine that plays a value whose values are themselves values over
/// time, before its first step.
pub open spec fn nested<T, S: Source<Event = T>, O: Source<Event = Var<T, S>>>(
    var: Var<Var<T, S>, O>,
) -> Switch<Updates<O>, Chain<Once<T>, S>> {
    Switch {
        outer: Updates { source: var.future.source },
        current: unrolled(var.present),
        upcoming: None,
        window: 0,
        carry: 0,
        phase: Phase::Closed,
    }
}

/// A `Switch` that has lost no time and whose stream in hand is about to
/// give `first` at delay 0 gives `first` at delay 0.
pub proof fn lemma_present_first<T, S: Source<Event = T>, O: Source<Event = Var<T, S>>>(
    m: Switch<Updates<O>, Chain<Once<T>, S>>,
    first: T,
    fuel: nat,
)
    requires
        m.carry == 0,
        m.current.first == (Once { item: Some(first) }),
        !m.current.switched,
        settles(m, fuel),
    ensures
        run(m, fuel).0 == Some((0u64, first)),
    decreases fuel,
{
    if m.phase is Closed {
        lemma_present_first(m.stepped().1, first, (fuel - 1) as nat);
    }
}

impl<T, S: Source<Event = T>, O: Source<Event = Var<T, S>>> Var<Var<T, S>, O> {
    /// The value that is, at each time, what the value of that time is then.
    /// Its present value is that of the present value.
    pub fn sequence(self) -> (r: Var<T, Switch<Updates<O>, Chain<Once<T>, S>>>)
        requires
            nested(self).inv(),
            responsive(nested(self)),
        ensures
            r.present == self.present.present,
            r.future.source == pulled(nested(self)).1,
            r.future.source.inv(),
    {
        let Var { present, future } = self;
        let mut flat = Var {
            present: present.updates(),
            future: Stream { source: Updates { source: future.source } },
        }.sequence();
        proof {
            let fuel = choose|fuel: nat| settles(flat.source, fuel);
            lemma_present_first(flat.source, self.present.present, fuel);
        }
        match flat.next() {
            Some((_, first)) => Var { present: first, future: flat },
            None => vstd::pervasive::unreached(),
        }
    }
}

} // verus!
