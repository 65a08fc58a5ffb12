//! Concatenation: plain, and at a fixed point in time.

use vstd::prelude::*;
use crate::basic::Empty;
use crate::source::{
    Source,
    Step,
    after,
    delays_within,
    emits,
    ends_within,
    lemma_after_after,
    lemma_ends_more,
    trace,
};
use crate::timeline::{kept, late, lemma_late_zero, lemma_span_cons, span, spliced};

verus! {

/// All of `first`, then all of `second`, delays untouched.
pub struct Chain<A, B> {
    pub first: A,
    pub second: B,
    /// Whether `first` has reported its end.
    pub switched: bool,
}

impl<A: Source, B: Source<Event = A::Event>> Source for Chain<A, B> {
    type Event = A::Event;

    open spec fn inv(&self) -> bool {
        self.first.inv() && self.second.inv()
    }

    open spec fn stepped(&self) -> (Step<A::Event>, Self) {
        if !self.switched {
            let (out, first) = self.first.stepped();
            match out {
                Step::Done => (Step::Skip, Chain { first, second: self.second, switched: true }),
                _ => (out, Chain { first, second: self.second, switched: false }),
            }
        } else {
            let (out, second) = self.second.stepped();
            (out, Chain { first: self.first, second, switched: true })
        }
    }

    fn step(&mut self) -> (out: Step<A::Event>) {
        if !self.switched {
            match self.first.step() {
                Step::Done => {
                    self.switched = true;
                    Step::Skip
                },
                out => out,
            }
        } else {
            self.second.step()
        }
    }
}

/// `first` up to `threshold` ticks from its start, then `second`, whose
/// clock starts exactly there.
pub struct ChainAt<A, B> {
    pub first: A,
    pub second: B,
    /// Before the switch, the time left to `first`. After it, the part of
    /// that time which no event of `second` has absorbed yet.
    pub threshold: u64,
    /// Whether `first` has been abandoned.
    pub switched: bool,
}

impl<A: Source, B: Source<Event = A::Event>> ChainAt<A, B> {
    /// The delay that the next step would emit fits in a `u64`.
    pub open spec fn fits(&self) -> bool {
        self.switched ==> match self.second.stepped().0 {
            Step::Emit(d, _) => d + self.threshold <= u64::MAX,
            _ => true,
        }
    }

    /// The outcome of one step and the state it leaves.
    pub open spec fn advanced(&self) -> (Step<A::Event>, Self) {
        if !self.switched {
            let (out, first) = self.first.stepped();
            match out {
                Step::Emit(d, e) => if d <= self.threshold {
                    (
                        Step::Emit(d, e),
                        ChainAt {
                            first,
                            second: self.second,
                            threshold: (self.threshold - d) as u64,
                            switched: false,
                        },
                    )
                } else {
                    (
                        Step::Skip,
                        ChainAt {
                            first,
                            second: self.second,
                            threshold: self.threshold,
                            switched: true,
                        },
                    )
                },
                Step::Skip => (
                    Step::Skip,
                    ChainAt {
                        first,
                        second: self.second,
                        threshold: self.threshold,
                        switched: false,
                    },
                ),
                Step::Done => (
                    Step::Skip,
                    ChainAt {
                        first,
                        second: self.second,
                        threshold: self.threshold,
                        switched: true,
                    },
                ),
            }
        } else {
            let (out, second) = self.second.stepped();
            match out {
                Step::Emit(d, e) => (
                    Step::Emit((d + self.threshold) as u64, e),
                    ChainAt { first: self.first, second, threshold: 0, switched: true },
                ),
                _ => (
                    out,
                    ChainAt {
                        first: self.first,
                        second,
                        threshold: self.threshold,
                        switched: true,
                    },
                ),
            }
        }
    }

    /// The state after `n` steps.
    pub open spec fn later(&self, n: nat) -> Self
        decreases n,
    {
        if n == 0 {
            *self
        } else {
            self.advanced().1.later((n - 1) as nat)
        }
    }
}

impl<A: Source, B: Source<Event = A::Event>> Source for ChainAt<A, B> {
    type Event = A::Event;

    open spec fn inv(&self) -> bool {
        &&& self.first.inv()
        &&& self.second.inv()
        &&& forall|n: nat| (#[trigger] self.later(n)).fits()
    }

    open spec fn stepped(&self) -> (Step<A::Event>, Self) {
        self.advanced()
    }

    fn step(&mut self) -> (out: Step<A::Event>) {
        let ghost next = self.advanced().1;
        proof {
            assert(self.later(0).fits());
            assert forall|n: nat| (#[trigger] next.later(n)).fits() by {
                assert(self.later(n + 1).fits());
            }
        }
        let out = if !self.switched {
            match self.first.step() {
                Step::Emit(d, e) => {
                    if d <= self.threshold {
                        self.threshold = self.threshold - d;
                        Step::Emit(d, e)
                    } else {
                        self.switched = true;
                        Step::Skip
                    }
                },
                Step::Skip => Step::Skip,
                Step::Done => {
                    self.switched = true;
                    Step::Skip
                },
            }
        } else {
            match self.second.step() {
                Step::Emit(d, e) => {
                    let late = d + self.threshold;
                    self.threshold = 0;
                    Step::Emit(late, e)
                },
                out => out,
            }
        };
        assert(*self == next);
        out
    }
}

/// A chain of two streams that end emits the events of the first, then
/// those of the second.
pub proof fn lemma_chain<A: Source, B: Source<Event = A::Event>>(c: Chain<A, B>, na: nat, nb: nat)
    requires
        ends_within(c.second, nb),
        !c.switched ==> ends_within(c.first, na),
    ensures
        c.switched ==> ends_within(c, nb) && trace(c, nb) == trace(c.second, nb),
        !c.switched ==> ends_within(c, na + nb) && trace(c, na + nb) == trace(c.first, na) + trace(
            c.second,
            nb,
        ),
    decreases
            (if c.switched {
                0nat
            } else {
                na + 1
            }),
            nb,
{
    let next = c.stepped().1;
    if c.switched {
        if !(c.second.stepped().0 is Done) {
            lemma_chain(next, na, (nb - 1) as nat);
        }
    } else {
        match c.first.stepped().0 {
            Step::Done => {
                lemma_chain(next, na, nb);
                lemma_ends_more(c, nb + 1, na + nb);
                assert(Seq::<(u64, A::Event)>::empty() + trace(c.second, nb) == trace(
                    c.second,
                    nb,
                ));
            },
            Step::Skip => {
                lemma_chain(next, (na - 1) as nat, nb);
            },
            Step::Emit(d, e) => {
                lemma_chain(next, (na - 1) as nat, nb);
                let rest = trace(c.first.stepped().1, (na - 1) as nat);
                assert(seq![(d, e)] + (rest + trace(c.second, nb)) == (seq![(d, e)] + rest)
                    + trace(c.second, nb));
            },
        }
    }
}

/// Once a splice has switched, it emits the events of its second stream,
/// the first of them later by what is left of the threshold.
pub proof fn lemma_chain_at_late<A: Source, B: Source<Event = A::Event>>(c: ChainAt<A, B>, nb: nat)
    requires
        c.switched,
        ends_within(c.second, nb),
        trace(c.second, nb).len() > 0 ==> trace(c.second, nb)[0].0 + c.threshold <= u64::MAX,
    ensures
        ends_within(c, nb),
        trace(c, nb) == late(trace(c.second, nb), c.threshold as int),
    decreases nb,
{
    let next = c.stepped().1;
    let events = trace(c.second, nb);
    match c.second.stepped().0 {
        Step::Done => {},
        Step::Skip => {
            lemma_chain_at_late(next, (nb - 1) as nat);
        },
        Step::Emit(d, e) => {
            let rest = trace(c.second.stepped().1, (nb - 1) as nat);
            assert(events[0] == (d, e));
            assert(events.drop_first() == rest);
            lemma_chain_at_late(next, (nb - 1) as nat);
            lemma_late_zero(rest);
        },
    }
}

/// A splice of two streams that end emits what `spliced` makes of their
/// events, as long as the delay of the first event of the second stream,
/// made later, fits in a `u64`.
pub proof fn lemma_chain_at<A: Source, B: Source<Event = A::Event>>(
    c: ChainAt<A, B>,
    na: nat,
    nb: nat,
)
    requires
        !c.switched,
        ends_within(c.first, na),
        ends_within(c.second, nb),
        trace(c.second, nb).len() > 0 ==> trace(c.second, nb)[0].0 + c.threshold - span(
            kept(trace(c.first, na), c.threshold as int),
        ) <= u64::MAX,
    ensures
        ends_within(c, na + nb),
        trace(c, na + nb) == spliced(trace(c.first, na), c.threshold as int, trace(c.second, nb)),
    decreases na,
{
    let next = c.stepped().1;
    let first = trace(c.first, na);
    let second = trace(c.second, nb);
    let rest = trace(c.first.stepped().1, (na - 1) as nat);
    match c.first.stepped().0 {
        Step::Skip => {
            lemma_chain_at(next, (na - 1) as nat, nb);
        },
        Step::Emit(d, e) => {
            assert(first[0] == (d, e));
            assert(first.drop_first() == rest);
            if d <= c.threshold {
                let cut = kept(first, c.threshold as int);
                let cut_rest = kept(rest, c.threshold - d);
                assert(cut == seq![(d, e)] + cut_rest);
                assert(cut.drop_first() == cut_rest);
                lemma_span_cons(cut);
                lemma_chain_at(next, (na - 1) as nat, nb);
                let tail = late(second, c.threshold - d - span(cut_rest));
                assert(seq![(d, e)] + (cut_rest + tail) == (seq![(d, e)] + cut_rest) + tail);
            } else {
                assert(kept(first, c.threshold as int) == Seq::<(u64, A::Event)>::empty());
                lemma_chain_at_late(next, nb);
                lemma_ends_more(c, nb + 1, na + nb);
                assert(Seq::<(u64, A::Event)>::empty() + late(second, c.threshold as int)
                    == late(second, c.threshold as int));
            }
        },
        Step::Done => {
            assert(first == Seq::<(u64, A::Event)>::empty());
            lemma_chain_at_late(next, nb);
            lemma_ends_more(c, nb + 1, na + nb);
            assert(Seq::<(u64, A::Event)>::empty() + late(second, c.threshold as int) == late(
                second,
                c.threshold as int,
            ));
        },
    }
}

/// Whatever a splice has done, its second stream is where some number of
/// steps has taken it, and its threshold has not grown.
pub proof fn lemma_chain_at_later<A: Source, B: Source<Event = A::Event>>(c: ChainAt<A, B>, n: nat)
    -> (j: nat)
    ensures
        c.later(n).second == after(c.second, j),
        c.later(n).threshold <= c.threshold,
    decreases n,
{
    if n == 0 {
        0
    } else {
        let next = c.advanced().1;
        let i = lemma_chain_at_later(next, (n - 1) as nat);
        if c.switched {
            assert(next.second == after(c.second, 1)) by {
                assert(after(c.second.stepped().1, 0) == c.second.stepped().1);
            }
            lemma_after_after(c.second, 1, i);
            1 + i
        } else {
            i
        }
    }
}

/// A splice may be read where its two streams may be read and the longest
/// delay of the second, made later by the threshold, fits in a `u64`.
pub proof fn lemma_chain_at_inv<A: Source, B: Source<Event = A::Event>>(c: ChainAt<A, B>, bound: nat)
    requires
        c.first.inv(),
        c.second.inv(),
        delays_within(c.second, bound),
        bound + c.threshold <= u64::MAX,
    ensures
        c.inv(),
{
    assert forall|n: nat| (#[trigger] c.later(n)).fits() by {
        let j = lemma_chain_at_later(c, n);
        assert(match after(c.second, j).stepped().0 {
            Step::Emit(d, _) => d <= bound,
            _ => true,
        });
    }
}

/// The stream `s` cut off `duration` ticks after its start, before its
/// first step: what `take` returns.
pub open spec fn cut<S: Source>(s: S, duration: u64) -> ChainAt<S, Empty<S::Event>> {
    ChainAt {
        first: s,
        second: Empty { marker: core::marker::PhantomData },
        threshold: duration,
        switched: false,
    }
}

/// The stream `s` with every event `duration` ticks later, before its first
/// step: what `delay` returns.
pub open spec fn put_off<S: Source>(s: S, duration: u64) -> ChainAt<Empty<S::Event>, S> {
    ChainAt {
        first: Empty { marker: core::marker::PhantomData },
        second: s,
        threshold: duration,
        switched: false,
    }
}

/// Cutting a stream that ends off gives a stream that ends, and it emits
/// the events that `kept` describes.
pub proof fn lemma_cut<S: Source>(s: S, events: Seq<(u64, S::Event)>, duration: u64)
    requires
        emits(s, events),
    ensures
        emits(cut(s, duration), kept(events, duration as int)),
{
    let n = choose|n: nat| ends_within(s, n) && trace(s, n) == events;
    let c = cut(s, duration);
    assert(ends_within(c.second, 1));
    assert(trace(c.second, 1) == Seq::<(u64, S::Event)>::empty());
    lemma_chain_at(c, n, 1);
    assert(kept(events, duration as int) + Seq::empty() == kept(events, duration as int));
    assert(ends_within(c, n + 1) && trace(c, n + 1) == kept(events, duration as int));
}

/// Delaying a stream that ends gives a stream that ends, and it emits the
/// same events, the first of them later by the delay, as long as that fits
/// in a `u64`.
pub proof fn lemma_put_off<S: Source>(s: S, events: Seq<(u64, S::Event)>, duration: u64)
    requires
        emits(s, events),
        events.len() > 0 ==> events[0].0 + duration <= u64::MAX,
    ensures
        emits(put_off(s, duration), late(events, duration as int)),
{
    let n = choose|n: nat| ends_within(s, n) && trace(s, n) == events;
    let c = put_off(s, duration);
    assert(ends_within(c.first, 1));
    assert(trace(c.first, 1) == Seq::<(u64, S::Event)>::empty());
    assert(kept(Seq::<(u64, S::Event)>::empty(), duration as int) == Seq::<
        (u64, S::Event),
    >::empty());
    assert(span(Seq::<(u64, S::Event)>::empty()) == 0);
    lemma_chain_at(c, 1, n);
    assert(Seq::<(u64, S::Event)>::empty() + late(events, duration as int) == late(
        events,
        duration as int,
    ));
    assert(ends_within(c, 1 + n) && trace(c, 1 + n) == late(events, duration as int));
}

} // verus!
