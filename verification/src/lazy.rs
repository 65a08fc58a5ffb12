//! A stream that is built when it is first read.

use vstd::prelude::*;
use crate::source::{Source, Step, emits, ends_within, trace};
use crate::stream::Stream;

verus! {

/// The stream that `factory` returns.
pub open spec fn built<S, F: FnOnce() -> Stream<S>>(factory: F) -> Stream<S> {
    choose|s: Stream<S>| factory.ensures((), s)
}

/// `factory` may be called, what it returns is fixed, and that stream may be
/// read.
pub open spec fn builds<S: Source, F: FnOnce() -> Stream<S>>(factory: F) -> bool {
    &&& factory.requires(())
    &&& forall|s1: Stream<S>, s2: Stream<S>|
        factory.ensures((), s1) && factory.ensures((), s2) ==> s1 == s2
    &&& forall|s: Stream<S>| factory.ensures((), s) ==> s.source.inv()
}

/// A stream in one of two states: not yet built, with the factory that will
/// build it, or built, and then it is that stream.
pub enum Lazy<S, F> {
    /// Not yet built. The factory is there until the first step takes it.
    Before(Option<F>),
    /// Built.
    After(S),
}

impl<S: Source, F: FnOnce() -> Stream<S>> Source for Lazy<S, F> {
    type Event = S::Event;

    open spec fn inv(&self) -> bool {
        match *self {
            Lazy::Before(Some(factory)) => builds(factory),
            Lazy::Before(None) => true,
            Lazy::After(source) => source.inv(),
        }
    }

    open spec fn stepped(&self) -> (Step<S::Event>, Self) {
        match *self {
            Lazy::Before(Some(factory)) => (Step::Skip, Lazy::After(built(factory).source)),
            Lazy::Before(None) => (Step::Done, *self),
            Lazy::After(source) => (source.stepped().0, Lazy::After(source.stepped().1)),
        }
    }

    fn step(&mut self) -> (out: Step<S::Event>) {
        match self {
            Lazy::Before(slot) => {
                match slot.take() {
                    Some(factory) => {
                        let stream = factory();
                        *self = Lazy::After(stream.source);
                        Step::Skip
                    },
                    None => Step::Done,
                }
            },
            Lazy::After(source) => source.step(),
        }
    }
}

/// A built lazy stream steps as the stream that was built.
pub proof fn lemma_built<S: Source, F: FnOnce() -> Stream<S>>(source: S, n: nat)
    ensures
        ends_within(Lazy::<S, F>::After(source), n) == ends_within(source, n),
        trace(Lazy::<S, F>::After(source), n) == trace(source, n),
    decreases n,
{
    if n > 0 {
        lemma_built::<S, F>(source.stepped().1, (n - 1) as nat);
    }
}

/// A lazy stream emits what the stream that its factory returns emits.
pub proof fn lemma_lazy_emits<S: Source, F: FnOnce() -> Stream<S>>(
    factory: F,
    events: Seq<(u64, S::Event)>,
)
    requires
        emits(built(factory).source, events),
    ensures
        emits(Lazy::Before(Some(factory)), events),
{
    let source = built(factory).source;
    let n = choose|n: nat| ends_within(source, n) && trace(source, n) == events;
    lemma_built::<S, F>(source, n);
    let lazy = Lazy::Before(Some(factory));
    assert(lazy.stepped().1 == Lazy::<S, F>::After(source));
    assert(ends_within(lazy, n + 1) && trace(lazy, n + 1) == events);
}

} // verus!
