//! The pull interface that every stream producer implements, and what a
//! producer denotes: the events it hands out, one small step at a time.

use vstd::prelude::*;

verus! {

/// What one small step of a producer gives.
pub enum Step<E> {
    /// An event, `delay` ticks after the event before it.
    Emit(u64, E),
    /// No event yet: the producer advanced and must be stepped again.
    Skip,
    /// No further event.
    Done,
}

/// A lazy producer of timed events. Nothing runs until `step` is called, and
/// each call does a bounded amount of work.
pub trait Source: Sized {
    type Event;

    /// The states from which stepping is safe, now and ever after.
    spec fn inv(&self) -> bool;

    /// The outcome of one step and the state it leaves.
    spec fn stepped(&self) -> (Step<Self::Event>, Self);

    fn step(&mut self) -> (out: Step<Self::Event>)
        requires
            old(self).inv(),
        ensures
            final(self).inv(),
            out == old(self).stepped().0,
            *final(self) == old(self).stepped().1,
    ;
}

/// The state of `s` after `n` steps.
pub open spec fn after<S: Source>(s: S, n: nat) -> S
    decreases n,
{
    if n == 0 {
        s
    } else {
        after(s.stepped().1, (n - 1) as nat)
    }
}

/// The events that the first `n` steps of `s` emit, in order.
pub open spec fn trace<S: Source>(s: S, n: nat) -> Seq<(u64, S::Event)>
    decreases n,
{
    if n == 0 {
        Seq::empty()
    } else {
        match s.stepped().0 {
            Step::Emit(d, e) => seq![(d, e)] + trace(s.stepped().1, (n - 1) as nat),
            Step::Skip => trace(s.stepped().1, (n - 1) as nat),
            Step::Done => Seq::empty(),
        }
    }
}

/// `s` reports `Done` at one of its first `n` steps, so `trace(s, n)` is all
/// it ever emits before it ends.
pub open spec fn ends_within<S: Source>(s: S, n: nat) -> bool
    decreases n,
{
    n > 0 && match s.stepped().0 {
        Step::Done => true,
        _ => ends_within(s.stepped().1, (n - 1) as nat),
    }
}

/// No delay that `s` ever emits is above `bound`.
pub open spec fn delays_within<S: Source>(s: S, bound: nat) -> bool {
    forall|k: nat|
        match (#[trigger] after(s, k)).stepped().0 {
            Step::Emit(d, _) => d <= bound,
            _ => true,
        }
}

/// Steps add up: `j` steps after `i` steps are `i + j` steps.
pub proof fn lemma_after_after<S: Source>(s: S, i: nat, j: nat)
    ensures
        after(after(s, i), j) == after(s, i + j),
    decreases i,
{
    if i > 0 {
        lemma_after_after(s.stepped().1, (i - 1) as nat, j);
    }
}

/// None of the first `n` steps of `s` reports `Done`.
pub open spec fn runs_for<S: Source>(s: S, n: nat) -> bool {
    forall|i: nat| i < n ==> !(#[trigger] after(s, i).stepped().0 is Done)
}

/// What the step after the first `n` adds to the trace.
pub open spec fn emitted_at<S: Source>(s: S, n: nat) -> Seq<(u64, S::Event)> {
    match after(s, n).stepped().0 {
        Step::Emit(d, e) => seq![(d, e)],
        _ => Seq::empty(),
    }
}

/// One more step is one step from the state after the others.
pub proof fn lemma_after_next<S: Source>(s: S, n: nat)
    ensures
        after(s, n + 1) == after(s, n).stepped().1,
    decreases n,
{
    let t = s.stepped().1;
    assert(after(s, n + 1) == after(t, n));
    if n > 0 {
        lemma_after_next(t, (n - 1) as nat);
        assert(after(s, n) == after(t, (n - 1) as nat));
    } else {
        assert(after(t, 0) == t);
        assert(after(s, 0) == s);
    }
}

/// While `s` has not ended, each step adds what it emits to the end of the
/// trace.
pub proof fn lemma_trace_next<S: Source>(s: S, n: nat)
    requires
        runs_for(s, n),
    ensures
        trace(s, n + 1) == trace(s, n) + emitted_at(s, n),
    decreases n,
{
    if n == 0 {
        assert(after(s, 0) == s);
        assert(trace(s.stepped().1, 0) == Seq::<(u64, S::Event)>::empty());
        match s.stepped().0 {
            Step::Emit(d, e) => {
                assert(seq![(d, e)] + Seq::empty() == Seq::empty() + seq![(d, e)]);
            },
            _ => {
                assert(Seq::<(u64, S::Event)>::empty() + Seq::empty() == Seq::<
                    (u64, S::Event),
                >::empty());
            },
        }
    } else {
        let t = s.stepped().1;
        assert(after(s, 0) == s);
        assert(!(after(s, 0).stepped().0 is Done));
        assert forall|i: nat| i < n - 1 implies !(#[trigger] after(t, i).stepped().0 is Done) by {
            assert(after(s, i + 1) == after(t, i));
        }
        lemma_trace_next(t, (n - 1) as nat);
        assert(after(s, n) == after(t, (n - 1) as nat));
        match s.stepped().0 {
            Step::Emit(d, e) => {
                assert(seq![(d, e)] + (trace(t, (n - 1) as nat) + emitted_at(t, (n - 1) as nat))
                    == (seq![(d, e)] + trace(t, (n - 1) as nat)) + emitted_at(t, (n - 1) as nat));
            },
            _ => {},
        }
    }
}

/// `s` ends: it reports `Done` after finitely many steps.
pub open spec fn finite<S: Source>(s: S) -> bool {
    exists|n: nat| ends_within(s, n)
}

/// All that a finite `s` emits before it ends.
pub open spec fn whole<S: Source>(s: S) -> Seq<(u64, S::Event)> {
    trace(s, choose|n: nat| ends_within(s, n))
}

/// Once `s` has ended, further steps add nothing to its trace.
pub proof fn lemma_trace_ended<S: Source>(s: S, n: nat, m: nat)
    requires
        ends_within(s, n),
        ends_within(s, m),
    ensures
        trace(s, n) == trace(s, m),
    decreases n,
{
    if !(s.stepped().0 is Done) {
        lemma_trace_ended(s.stepped().1, (n - 1) as nat, (m - 1) as nat);
    }
}

/// A source that has ended within `n` steps has ended within any more.
pub proof fn lemma_ends_more<S: Source>(s: S, n: nat, m: nat)
    requires
        ends_within(s, n),
        n <= m,
    ensures
        ends_within(s, m),
        trace(s, m) == trace(s, n),
    decreases n,
{
    if !(s.stepped().0 is Done) {
        lemma_ends_more(s.stepped().1, (n - 1) as nat, (m - 1) as nat);
    }
}

/// `s` ends, and `events` is all that it emits before it does.
pub open spec fn emits<S: Source>(s: S, events: Seq<(u64, S::Event)>) -> bool {
    exists|n: nat| ends_within(s, n) && trace(s, n) == events
}

/// What a source emits before it ends is what reading it to its end gives.
pub proof fn lemma_emits_whole<S: Source>(s: S, events: Seq<(u64, S::Event)>)
    requires
        emits(s, events),
    ensures
        finite(s),
        whole(s) == events,
{
    let n = choose|n: nat| ends_within(s, n) && trace(s, n) == events;
    let m = choose|n: nat| ends_within(s, n);
    lemma_trace_ended(s, n, m);
}

/// A pull on a source that ends within `n` steps gives the first event of
/// its trace, or `None` where the trace is empty, and leaves a source that
/// emits the rest: the number returned bounds the steps in which that source
/// ends.
pub proof fn lemma_run_trace<S: Source>(s: S, n: nat) -> (left: nat)
    requires
        ends_within(s, n),
    ensures
        settles(s, n),
        left < n,
        trace(s, n).len() == 0 ==> run(s, n).0 is None,
        trace(s, n).len() > 0 ==> {
            &&& run(s, n).0 == Some(trace(s, n)[0])
            &&& ends_within(run(s, n).1, left)
            &&& trace(run(s, n).1, left) == trace(s, n).drop_first()
        },
    decreases n,
{
    let next = s.stepped().1;
    match s.stepped().0 {
        Step::Skip => lemma_run_trace(next, (n - 1) as nat),
        Step::Emit(d, e) => {
            assert(trace(s, n).drop_first() == trace(next, (n - 1) as nat));
            (n - 1) as nat
        },
        Step::Done => 0,
    }
}

/// A pull on a source that emits `events` and ends gives the first of
/// `events`, or `None` where there is none, and leaves a source that emits
/// the others and ends.
pub proof fn lemma_pulled_emits<S: Source>(s: S, events: Seq<(u64, S::Event)>)
    requires
        emits(s, events),
    ensures
        responsive(s),
        events.len() == 0 ==> pulled(s).0 is None,
        events.len() > 0 ==> pulled(s).0 == Some(events[0]) && emits(
            pulled(s).1,
            events.drop_first(),
        ),
{
    let n = choose|n: nat| ends_within(s, n) && trace(s, n) == events;
    let left = lemma_run_trace(s, n);
    let fuel = choose|fuel: nat| settles(s, fuel);
    lemma_run_fuel(s, n, fuel);
}

/// `s` emits or ends after at most `fuel` skipped steps.
pub open spec fn settles<S: Source>(s: S, fuel: nat) -> bool
    decreases fuel,
{
    match s.stepped().0 {
        Step::Skip => fuel > 0 && settles(s.stepped().1, (fuel - 1) as nat),
        _ => true,
    }
}

/// The first event of `s`, or `None` at its end, and the state after it,
/// found by stepping over at most `fuel` skips.
pub open spec fn run<S: Source>(s: S, fuel: nat) -> (Option<(u64, S::Event)>, S)
    decreases fuel,
{
    match s.stepped().0 {
        Step::Emit(d, e) => (Some((d, e)), s.stepped().1),
        Step::Done => (None, s.stepped().1),
        Step::Skip => if fuel == 0 {
            (None, s)
        } else {
            run(s.stepped().1, (fuel - 1) as nat)
        },
    }
}

/// A pull on `s` returns: some finite number of skips leads to an event or
/// to the end.
pub open spec fn responsive<S: Source>(s: S) -> bool {
    exists|fuel: nat| settles(s, fuel)
}

/// What a pull on `s` returns and the state it leaves.
pub open spec fn pulled<S: Source>(s: S) -> (Option<(u64, S::Event)>, S) {
    run(s, choose|fuel: nat| settles(s, fuel))
}

/// The fuel given to `run` does not matter once it suffices.
pub proof fn lemma_run_fuel<S: Source>(s: S, f1: nat, f2: nat)
    requires
        settles(s, f1),
        settles(s, f2),
    ensures
        run(s, f1) == run(s, f2),
    decreases f1,
{
    if s.stepped().0 is Skip {
        lemma_run_fuel(s.stepped().1, (f1 - 1) as nat, (f2 - 1) as nat);
    }
}

} // verus!
