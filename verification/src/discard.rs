//! Dropping the start of a stream.

use vstd::prelude::*;
use crate::source::{Source, Step, emits, ends_within, lemma_emits_whole, trace, whole};
use crate::splice::{cut, lemma_cut};
use crate::timeline::{dropped, kept, lemma_dropped_zero, lemma_kept_dropped, moments};

verus! {

/// `source` without what comes before `duration` ticks have passed: events
/// are discarded while the time up to them is below `duration`, and the first
/// one kept comes as much later as it lay beyond that point.
pub struct Discard<S> {
    pub source: S,
    /// What is left of the time to discard; 0 once an event was kept.
    pub duration: u64,
}

impl<S: Source> Source for Discard<S> {
    type Event = S::Event;

    open spec fn inv(&self) -> bool {
        self.source.inv()
    }

    open spec fn stepped(&self) -> (Step<S::Event>, Self) {
        let (out, source) = self.source.stepped();
        match out {
            Step::Emit(d, e) => if d >= self.duration {
                (Step::Emit((d - self.duration) as u64, e), Discard { source, duration: 0 })
            } else {
                (Step::Skip, Discard { source, duration: (self.duration - d) as u64 })
            },
            _ => (out, Discard { source, duration: self.duration }),
        }
    }

    fn step(&mut self) -> (out: Step<S::Event>) {
        match self.source.step() {
            Step::Emit(d, e) => {
                if d >= self.duration {
                    let late = d - self.duration;
                    self.duration = 0;
                    Step::Emit(late, e)
                } else {
                    self.duration = self.duration - d;
                    Step::Skip
                }
            },
            out => out,
        }
    }
}

/// Dropping the start of a stream that ends gives a stream that ends, and
/// it emits the events that `dropped` describes.
pub proof fn lemma_discard<S: Source>(c: Discard<S>, n: nat)
    requires
        ends_within(c.source, n),
    ensures
        ends_within(c, n),
        trace(c, n) == dropped(trace(c.source, n), c.duration as int),
    decreases n,
{
    let next = c.stepped().1;
    let events = trace(c.source, n);
    let rest = trace(c.source.stepped().1, (n - 1) as nat);
    match c.source.stepped().0 {
        Step::Done => {},
        Step::Skip => {
            lemma_discard(next, (n - 1) as nat);
        },
        Step::Emit(d, e) => {
            assert(events[0] == (d, e));
            assert(events.drop_first() == rest);
            lemma_discard(next, (n - 1) as nat);
            if d >= c.duration {
                lemma_dropped_zero(rest);
            }
        },
    }
}

/// `take` and `drop` complement each other. For every stream that ends and
/// every duration, the stream cut off at the duration and the stream without
/// its first `duration` ticks both end, and between them they hold the events
/// of the stream at the times of the stream, the clock of the second starting
/// `duration` ticks after that of the first: no event is lost and none is
/// added. An event that falls exactly at `duration` is in both.
pub proof fn lemma_take_drop_complement<S: Source>(
    s: S,
    events: Seq<(u64, S::Event)>,
    duration: u64,
)
    requires
        emits(s, events),
    ensures
        emits(cut(s, duration), kept(events, duration as int)),
        emits(Discard { source: s, duration }, dropped(events, duration as int)),
        moments(events, 0).to_set() == moments(whole(cut(s, duration)), 0).to_set().union(
            moments(whole(Discard { source: s, duration }), duration as int).to_set(),
        ),
{
    let n = choose|n: nat| ends_within(s, n) && trace(s, n) == events;
    lemma_cut(s, events, duration);
    lemma_discard(Discard { source: s, duration }, n);
    lemma_emits_whole(cut(s, duration), kept(events, duration as int));
    lemma_emits_whole(Discard { source: s, duration }, dropped(events, duration as int));
    let all = moments(events, 0).to_set();
    let parts = moments(kept(events, duration as int), 0).to_set().union(
        moments(dropped(events, duration as int), duration as int).to_set(),
    );
    assert forall|m: (int, S::Event)| all.contains(m) <==> parts.contains(m) by {
        lemma_kept_dropped(events, duration as int, 0, m);
    }
    assert(all =~= parts);
}

} // verus!
