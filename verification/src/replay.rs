//! Replaying a finite snapshot for ever.

use vstd::prelude::*;
use crate::source::{Source, Step, after, lemma_after_next, lemma_trace_next, runs_for, trace};
use crate::timeline::{lemma_span_push, span};

verus! {

/// `sample` played again and again, each round starting `gap` ticks after the
/// last event of the round before. With a `sample` that lasts `t` ticks, a
/// round starts every `t + gap` ticks. An empty `sample` gives no event.
pub struct Replay<E> {
    pub sample: Vec<(u64, E)>,
    /// The time between the last event of a round and the start of the next.
    pub gap: u64,
    /// The index in `sample` of the next event.
    pub pos: usize,
    /// Whether the first round is over.
    pub wrapped: bool,
}

impl<E: Copy> Source for Replay<E> {
    type Event = E;

    open spec fn inv(&self) -> bool {
        self.sample.len() > 0 ==> {
            &&& self.pos < self.sample.len()
            &&& self.sample[0].0 + self.gap <= u64::MAX
        }
    }

    open spec fn stepped(&self) -> (Step<E>, Self) {
        if self.sample.len() == 0 {
            (Step::Done, *self)
        } else {
            let (d, e) = self.sample[self.pos as int];
            let delay = if self.pos == 0 && self.wrapped {
                (d + self.gap) as u64
            } else {
                d
            };
            let last = self.pos + 1 == self.sample.len();
            (
                Step::Emit(delay, e),
                Replay {
                    sample: self.sample,
                    gap: self.gap,
                    pos: if last {
                        0
                    } else {
                        (self.pos + 1) as usize
                    },
                    wrapped: self.wrapped || last,
                },
            )
        }
    }

    fn step(&mut self) -> (out: Step<E>) {
        if self.sample.len() == 0 {
            return Step::Done;
        }
        let (d, e) = self.sample[self.pos];
        let delay = if self.pos == 0 && self.wrapped {
            d + self.gap
        } else {
            d
        };
        if self.pos + 1 == self.sample.len() {
            self.pos = 0;
            self.wrapped = true;
        } else {
            self.pos = self.pos + 1;
        }
        Step::Emit(delay, e)
    }
}

/// The replay of `sample` with the gap `gap`, before its first step.
pub open spec fn replay_of<E>(sample: Vec<(u64, E)>, gap: u64) -> Replay<E> {
    Replay { sample, gap, pos: 0, wrapped: false }
}

/// Where a replay stands after `k` steps: in round `k / m`, at event `k % m`
/// of a sample of `m` events. It has emitted `k` events, none of them missing,
/// and the last of them fell `k / m` periods after its place in the sample.
pub proof fn lemma_replay_steps<E: Copy>(sample: Vec<(u64, E)>, gap: u64, k: nat)
    requires
        sample@.len() > 0,
        sample@[0].0 + gap <= u64::MAX,
    ensures
        after(replay_of(sample, gap), k) == (Replay {
            sample,
            gap,
            pos: (k % sample@.len()) as usize,
            wrapped: k >= sample@.len(),
        }),
        runs_for(replay_of(sample, gap), k + 1),
        span(trace(replay_of(sample, gap), k + 1)) == (k / sample@.len()) * (span(sample@) + gap)
            + span(sample@.take((k % sample@.len() + 1) as int)),
    decreases k,
{
    let m = sample@.len();
    let start = replay_of(sample, gap);
    let period = span(sample@) + gap;
    vstd::arithmetic::div_mod::lemma_fundamental_div_mod(k as int, m as int);
    vstd::arithmetic::div_mod::lemma_mod_bound(k as int, m as int);
    let j = k % m;
    let (d, e) = sample@[j as int];
    assert(sample@.take(j + 1 as int).drop_last() == sample@.take(j as int));
    assert(span(sample@.take(j + 1 as int)) == span(sample@.take(j as int)) + d);
    if k == 0 {
        assert(after(start, 0) == start);
        assert(start.stepped().0 == Step::Emit(d, e));
        assert(trace(start.stepped().1, 0) == Seq::<(u64, E)>::empty());
        assert(trace(start, 1) == seq![(d, e)] + Seq::empty());
        assert(seq![(d, e)] + Seq::empty() == Seq::<(u64, E)>::empty().push((d, e)));
        lemma_span_push(Seq::<(u64, E)>::empty(), d, e);
        assert(sample@.take(0).len() == 0);
        assert(0int / m as int == 0);
    } else {
        let p = (k - 1) as nat;
        lemma_replay_steps(sample, gap, p);
        lemma_after_next(start, p);
        crate::cycle::lemma_cycle(p as int, m as int);
        vstd::arithmetic::div_mod::lemma_fundamental_div_mod(p as int, m as int);
        vstd::arithmetic::div_mod::lemma_mod_bound(p as int, m as int);
        let here = after(start, k);
        assert(here.pos == j);
        assert(here.wrapped == (k >= m)) by {
            if p % m + 1 == m {
                assert(k == m * (p / m) + m);
                assert(m * (p / m) >= 0) by (nonlinear_arith)
                    requires
                        m > 0,
                        p / m >= 0,
                ;
            } else {
                assert((p >= m) == (k >= m)) by {
                    if k == m {
                        vstd::arithmetic::div_mod::lemma_mod_self_0(m as int);
                    }
                }
            }
        }
        assert forall|i: nat| i < k + 1 implies !(#[trigger] after(start, i).stepped().0 is Done) by {
            if i == k {
            }
        }
        lemma_trace_next(start, k);
        let late = if j == 0 {
            (d + gap) as u64
        } else {
            d
        };
        assert(here.stepped().0 == Step::Emit(late, e));
        assert(trace(start, k + 1) == trace(start, k).push((late, e)));
        lemma_span_push(trace(start, k), late, e);
        if j == 0 {
            assert(p % m == m - 1);
            assert(sample@.take(m as int) == sample@);
            assert(k == m * (p / m + 1)) by (nonlinear_arith)
                requires
                    p == m * (p / m) + (m - 1),
                    k == p + 1,
            ;
            vstd::arithmetic::div_mod::lemma_fundamental_div_mod_converse(
                k as int,
                m as int,
                (p / m + 1) as int,
                0,
            );
            let q = (p / m) as int;
            let len = period as int;
            assert((q + 1) * len == q * len + len) by (nonlinear_arith);
            assert(sample@.take(0).len() == 0);
        } else {
            assert(k == m * (p / m) + j);
            vstd::arithmetic::div_mod::lemma_fundamental_div_mod_converse(
                k as int,
                m as int,
                (p / m) as int,
                j as int,
            );
        }
    }
}

/// A replay is periodic. With a sample of `m` events and a period of
/// `span(sample) + gap` ticks, event `index` of round `round` has the value
/// of event `index` of the sample, and falls `round` periods after the time
/// at which that event falls in the first round.
pub proof fn lemma_replay_periodic<E: Copy>(
    sample: Vec<(u64, E)>,
    gap: u64,
    round: nat,
    index: nat,
)
    requires
        index < sample@.len(),
        sample@[0].0 + gap <= u64::MAX,
    ensures
        match after(replay_of(sample, gap), round * sample@.len() + index).stepped().0 {
            Step::Emit(_, e) => e == sample@[index as int].1,
            _ => false,
        },
        span(trace(replay_of(sample, gap), round * sample@.len() + index + 1)) == round * (span(
            sample@,
        ) + gap) + span(trace(replay_of(sample, gap), index + 1)),
{
    let m = sample@.len();
    let k = round * m + index;
    assert(k == m * round + index) by (nonlinear_arith)
        requires
            k == round * m + index,
    ;
    vstd::arithmetic::div_mod::lemma_fundamental_div_mod_converse(
        k as int,
        m as int,
        round as int,
        index as int,
    );
    vstd::arithmetic::div_mod::lemma_small_mod(index, m);
    vstd::arithmetic::div_mod::lemma_basic_div(index as int, m as int);
    lemma_replay_steps(sample, gap, k);
    lemma_replay_steps(sample, gap, index);
    assert(0 * (span(sample@) + gap) == 0) by (nonlinear_arith);
}

} // verus!
