//! Playing a stream of streams: each one until the next arrives.

use vstd::prelude::*;
use crate::source::{Source, Step, emits, ends_within, lemma_ends_more, trace};
use crate::timeline::{kept, late, lemma_late_zero, lemma_span_cons, sequenced, span, spliced};
use crate::stream::Stream;

verus! {

/// Where a `Switch` stands with the stream it is playing.
pub enum Phase {
    /// The stream in hand has not been read yet, and the time at which the
    /// next one arrives has not been asked for.
    Closed,
    /// The stream in hand plays until the next one arrives.
    Open,
    /// No further stream arrives: the one in hand plays to its end.
    Last,
}

/// One stream made of a stream of streams. The stream in hand plays for as
/// long as its events fall before the next stream arrives; then that one
/// takes over, its clock starting at its arrival. The time that goes by
/// without an event is added to the delay of the next event.
pub struct Switch<O, S> {
    /// The streams still to arrive, each with the time from the arrival of
    /// the one before it.
    pub outer: O,
    /// The stream in hand.
    pub current: S,
    /// The stream that arrives next, once `outer` has given it.
    pub upcoming: Option<S>,
    /// The time left to the stream in hand.
    pub window: u64,
    /// The time that has gone by since the last event.
    pub carry: u64,
    pub phase: Phase,
}

impl<S: Source, O: Source<Event = Stream<S>>> Switch<O, S> {
    /// The next step stays within `u64` and finds what it needs.
    pub open spec fn ready(&self) -> bool {
        match self.phase {
            Phase::Closed => match self.outer.stepped().0 {
                Step::Emit(_, stream) => stream.source.inv(),
                _ => true,
            },
            Phase::Open => self.upcoming is Some && match self.current.stepped().0 {
                Step::Emit(d, _) => if d <= self.window {
                    d + self.carry <= u64::MAX
                } else {
                    self.carry + self.window <= u64::MAX
                },
                Step::Skip => true,
                Step::Done => self.carry + self.window <= u64::MAX,
            },
            Phase::Last => match self.current.stepped().0 {
                Step::Emit(d, _) => d + self.carry <= u64::MAX,
                _ => true,
            },
        }
    }

    /// The outcome of one step and the state it leaves.
    pub open spec fn advanced(&self) -> (Step<S::Event>, Self) {
        match self.phase {
            Phase::Closed => {
                let (out, outer) = self.outer.stepped();
                match out {
                    Step::Emit(d, stream) => (
                        Step::Skip,
                        Switch {
                            outer,
                            current: self.current,
                            upcoming: Some(stream.source),
                            window: d,
                            carry: self.carry,
                            phase: Phase::Open,
                        },
                    ),
                    Step::Skip => (
                        Step::Skip,
                        Switch {
                            outer,
                            current: self.current,
                            upcoming: self.upcoming,
                            window: self.window,
                            carry: self.carry,
                            phase: Phase::Closed,
                        },
                    ),
                    Step::Done => (
                        Step::Skip,
                        Switch {
                            outer,
                            current: self.current,
                            upcoming: self.upcoming,
                            window: self.window,
                            carry: self.carry,
                            phase: Phase::Last,
                        },
                    ),
                }
            },
            Phase::Open => {
                let (out, current) = self.current.stepped();
                let handed_over = (
                    Step::Skip,
                    Switch {
                        outer: self.outer,
                        current: match self.upcoming {
                            Some(next) => next,
                            None => current,
                        },
                        upcoming: None,
                        window: 0,
                        carry: (self.carry + self.window) as u64,
                        phase: Phase::Closed,
                    },
                );
                match out {
                    Step::Emit(d, e) => if d <= self.window {
                        (
                            Step::Emit((d + self.carry) as u64, e),
                            Switch {
                                outer: self.outer,
                                current,
                                upcoming: self.upcoming,
                                window: (self.window - d) as u64,
                                carry: 0,
                                phase: Phase::Open,
                            },
                        )
                    } else {
                        handed_over
                    },
                    Step::Skip => (
                        Step::Skip,
                        Switch {
                            outer: self.outer,
                            current,
                            upcoming: self.upcoming,
                            window: self.window,
                            carry: self.carry,
                            phase: Phase::Open,
                        },
                    ),
                    Step::Done => handed_over,
                }
            },
            Phase::Last => {
                let (out, current) = self.current.stepped();
                match out {
                    Step::Emit(d, e) => (
                        Step::Emit((d + self.carry) as u64, e),
                        Switch {
                            outer: self.outer,
                            current,
                            upcoming: self.upcoming,
                            window: self.window,
                            carry: 0,
                            phase: Phase::Last,
                        },
                    ),
                    _ => (
                        out,
                        Switch {
                            outer: self.outer,
                            current,
                            upcoming: self.upcoming,
                            window: self.window,
                            carry: self.carry,
                            phase: Phase::Last,
                        },
                    ),
                }
            },
        }
    }

    /// The state after `n` steps.
    pub open spec fn later(&self, n: nat) -> Self
        decreases n,
    {
        if n == 0 {
            *self
        } else {
            self.advanced().1.later((n - 1) as nat)
        }
    }

    /// Puts the stream that arrived in the place of the one in hand.
    fn hand_over(&mut self)
        requires
            old(self).upcoming is Some,
            old(self).carry + old(self).window <= u64::MAX,
        ensures
            *final(self) == (Switch {
                outer: old(self).outer,
                current: old(self).upcoming->0,
                upcoming: None,
                window: 0,
                carry: (old(self).carry + old(self).window) as u64,
                phase: Phase::Closed,
            }),
    {
        match self.upcoming.take() {
            Some(next) => {
                self.current = next;
            },
            None => {},
        }
        self.carry = self.carry + self.window;
        self.window = 0;
        self.phase = Phase::Closed;
    }
}

impl<S: Source, O: Source<Event = Stream<S>>> Source for Switch<O, S> {
    type Event = S::Event;

    open spec fn inv(&self) -> bool {
        &&& self.outer.inv()
        &&& self.current.inv()
        &&& self.upcoming is Some ==> self.upcoming->0.inv()
        &&& forall|n: nat| (#[trigger] self.later(n)).ready()
    }

    open spec fn stepped(&self) -> (Step<S::Event>, Self) {
        self.advanced()
    }

    fn step(&mut self) -> (out: Step<S::Event>) {
        let ghost next = self.advanced().1;
        proof {
            assert(self.later(0).ready());
            assert forall|n: nat| (#[trigger] next.later(n)).ready() by {
                assert(self.later(n + 1).ready());
            }
        }
        let out = match self.phase {
            Phase::Closed => {
                match self.outer.step() {
                    Step::Emit(d, stream) => {
                        self.upcoming = Some(stream.source);
                        self.window = d;
                        self.phase = Phase::Open;
                    },
                    Step::Skip => {},
                    Step::Done => {
                        self.phase = Phase::Last;
                    },
                }
                Step::Skip
            },
            Phase::Open => match self.current.step() {
                Step::Emit(d, e) => {
                    if d <= self.window {
                        let late = d + self.carry;
                        self.window = self.window - d;
                        self.carry = 0;
                        Step::Emit(late, e)
                    } else {
                        self.hand_over();
                        Step::Skip
                    }
                },
                Step::Skip => Step::Skip,
                Step::Done => {
                    self.hand_over();
                    Step::Skip
                },
            },
            Phase::Last => match self.current.step() {
                Step::Emit(d, e) => {
                    let late = d + self.carry;
                    self.carry = 0;
                    Step::Emit(late, e)
                },
                out => out,
            },
        };
        assert(*self == next);
        out
    }
}

/// The replacements that `arriving` holds, as lists: each stream with the
/// events of its first `steps[i]` steps.
pub open spec fn arrivals<S: Source>(arriving: Seq<(u64, Stream<S>)>, steps: Seq<nat>) -> Seq<
    (u64, Seq<(u64, S::Event)>),
> {
    Seq::new(arriving.len(), |i: int| (arriving[i].0, trace(arriving[i].1.source, steps[i])))
}

/// The steps that playing streams of `steps` steps takes at most.
pub open spec fn toll(steps: Seq<nat>) -> nat
    decreases steps.len(),
{
    if steps.len() == 0 {
        0
    } else {
        steps[0] + 2 + toll(steps.drop_first())
    }
}

impl<S: Source, O: Source<Event = Stream<S>>> Switch<O, S> {
    /// The steps that the switch takes at most, when `outer` ends within
    /// `no` steps, the stream in hand within `nc`, the next one within `nu`
    /// and those after it within `steps`.
    pub open spec fn cost(&self, no: nat, nc: nat, nu: nat, steps: Seq<nat>) -> nat {
        match self.phase {
            Phase::Last => nc,
            Phase::Closed => no + nc + 1 + toll(steps),
            Phase::Open => nc + 1 + no + nu + 1 + toll(steps),
        }
    }

    /// What the switch has still to play, on a clock that starts with the
    /// last event.
    pub open spec fn body(&self, no: nat, nc: nat, nu: nat, steps: Seq<nat>) -> Seq<
        (u64, S::Event),
    > {
        let present = trace(self.current, nc);
        let coming = arrivals(trace(self.outer, no), steps);
        match self.phase {
            Phase::Last => present,
            Phase::Closed => sequenced(present, coming),
            Phase::Open => spliced(
                present,
                self.window as int,
                sequenced(trace(self.upcoming->0, nu), coming),
            ),
        }
    }

    /// The streams that the switch holds and those that arrive all end, within
    /// the steps given.
    pub open spec fn bounded(&self, no: nat, nc: nat, nu: nat, steps: Seq<nat>) -> bool {
        &&& ends_within(self.current, nc)
        &&& self.phase is Open ==> self.upcoming is Some && ends_within(self.upcoming->0, nu)
        &&& !(self.phase is Last) ==> {
            &&& ends_within(self.outer, no)
            &&& steps.len() == trace(self.outer, no).len()
            &&& forall|i: int|
                0 <= i < steps.len() ==> ends_within(
                    (#[trigger] trace(self.outer, no)[i]).1.source,
                    steps[i],
                )
        }
    }
}

/// A switch over streams that all end emits what `sequenced` makes of their
/// events, the first of them later by the time that has gone by without an
/// event.
pub proof fn lemma_switch<S: Source, O: Source<Event = Stream<S>>>(
    c: Switch<O, S>,
    no: nat,
    nc: nat,
    nu: nat,
    steps: Seq<nat>,
)
    requires
        forall|k: nat| (#[trigger] c.later(k)).ready(),
        c.bounded(no, nc, nu, steps),
    ensures
        ends_within(c, c.cost(no, nc, nu, steps)),
        trace(c, c.cost(no, nc, nu, steps)) == late(c.body(no, nc, nu, steps), c.carry as int),
        c.body(no, nc, nu, steps).len() > 0 ==> c.body(no, nc, nu, steps)[0].0 + c.carry
            <= u64::MAX,
    decreases c.cost(no, nc, nu, steps),
{
    let next = c.stepped().1;
    let cost = c.cost(no, nc, nu, steps);
    let body = c.body(no, nc, nu, steps);
    assert(c.later(0).ready());
    assert forall|k: nat| (#[trigger] next.later(k)).ready() by {
        assert(c.later(k + 1).ready());
    }
    let present = trace(c.current, nc);
    let present_rest = trace(c.current.stepped().1, (nc - 1) as nat);
    match c.phase {
        Phase::Last => {
            match c.current.stepped().0 {
                Step::Done => {},
                Step::Skip => {
                    lemma_switch(next, no, (nc - 1) as nat, nu, steps);
                },
                Step::Emit(d, e) => {
                    assert(present[0] == (d, e));
                    assert(present.drop_first() == present_rest);
                    lemma_switch(next, no, (nc - 1) as nat, nu, steps);
                    lemma_late_zero(present_rest);
                },
            }
        },
        Phase::Closed => {
            let arriving = trace(c.outer, no);
            let coming = arrivals(arriving, steps);
            match c.outer.stepped().0 {
                Step::Done => {
                    assert(coming.len() == 0);
                    assert(toll(steps) == 0);
                    lemma_switch(next, no, nc, nu, steps);
                    lemma_ends_more(next, nc, (cost - 1) as nat);
                },
                Step::Skip => {
                    lemma_switch(next, (no - 1) as nat, nc, nu, steps);
                },
                Step::Emit(d, stream) => {
                    let arriving_rest = trace(c.outer.stepped().1, (no - 1) as nat);
                    let steps_rest = steps.drop_first();
                    assert(arriving[0] == (d, stream));
                    assert(arriving.drop_first() == arriving_rest);
                    assert forall|i: int| 0 <= i < steps_rest.len() implies ends_within(
                        (#[trigger] arriving_rest[i]).1.source,
                        steps_rest[i],
                    ) by {
                        assert(arriving_rest[i] == arriving[i + 1]);
                    }
                    assert(coming.drop_first() == arrivals(arriving_rest, steps_rest));
                    lemma_switch(next, (no - 1) as nat, nc, steps[0], steps_rest);
                    lemma_ends_more(
                        next,
                        next.cost((no - 1) as nat, nc, steps[0], steps_rest),
                        (cost - 1) as nat,
                    );
                },
            }
        },
        Phase::Open => {
            let following = sequenced(
                trace(c.upcoming->0, nu),
                arrivals(trace(c.outer, no), steps),
            );
            let cut = kept(present, c.window as int);
            match c.current.stepped().0 {
                Step::Skip => {
                    lemma_switch(next, no, (nc - 1) as nat, nu, steps);
                },
                Step::Emit(d, e) => {
                    assert(present[0] == (d, e));
                    assert(present.drop_first() == present_rest);
                    if d <= c.window {
                        let cut_rest = kept(present_rest, c.window - d);
                        assert(cut == seq![(d, e)] + cut_rest);
                        assert(cut.drop_first() == cut_rest);
                        lemma_span_cons(cut);
                        lemma_switch(next, no, (nc - 1) as nat, nu, steps);
                        let tail = late(following, c.window - d - span(cut_rest));
                        assert(seq![(d, e)] + (cut_rest + tail) == (seq![(d, e)] + cut_rest)
                            + tail);
                        lemma_late_zero(next.body(no, (nc - 1) as nat, nu, steps));
                        assert(body[0] == (d, e));
                        assert(body.drop_first() == next.body(no, (nc - 1) as nat, nu, steps));
                    } else {
                        assert(cut == Seq::<(u64, S::Event)>::empty());
                        assert(span(cut) == 0);
                        lemma_switch(next, no, nu, nu, steps);
                        lemma_ends_more(next, next.cost(no, nu, nu, steps), (cost - 1) as nat);
                        assert(body == Seq::<(u64, S::Event)>::empty() + late(
                            following,
                            c.window as int,
                        ));
                        assert(body == late(following, c.window as int));
                    }
                },
                Step::Done => {
                    assert(present == Seq::<(u64, S::Event)>::empty());
                    assert(cut == Seq::<(u64, S::Event)>::empty());
                    assert(span(cut) == 0);
                    lemma_switch(next, no, nu, nu, steps);
                    lemma_ends_more(next, next.cost(no, nu, nu, steps), (cost - 1) as nat);
                    assert(body == Seq::<(u64, S::Event)>::empty() + late(
                        following,
                        c.window as int,
                    ));
                    assert(body == late(following, c.window as int));
                },
            }
        },
    }
}

/// `sequence` over streams that all end ends, and it emits what `sequenced`
/// makes of their events.
pub proof fn lemma_sequence_emits<S: Source, O: Source<Event = Stream<S>>>(
    present: S,
    outer: O,
    first: Seq<(u64, S::Event)>,
    arriving: Seq<(u64, Stream<S>)>,
    steps: Seq<nat>,
)
    requires
        emits(present, first),
        emits(outer, arriving),
        steps.len() == arriving.len(),
        forall|i: int|
            0 <= i < steps.len() ==> ends_within((#[trigger] arriving[i]).1.source, steps[i]),
        forall|k: nat|
            (#[trigger] (Switch {
                outer,
                current: present,
                upcoming: None,
                window: 0,
                carry: 0,
                phase: Phase::Closed,
            }).later(k)).ready(),
    ensures
        emits(
            Switch {
                outer,
                current: present,
                upcoming: None,
                window: 0,
                carry: 0,
                phase: Phase::Closed,
            },
            sequenced(first, arrivals(arriving, steps)),
        ),
{
    let c = Switch {
        outer,
        current: present,
        upcoming: None,
        window: 0,
        carry: 0,
        phase: Phase::Closed,
    };
    let nc = choose|n: nat| ends_within(present, n) && trace(present, n) == first;
    let no = choose|n: nat| ends_within(outer, n) && trace(outer, n) == arriving;
    lemma_switch(c, no, nc, 0, steps);
    lemma_late_zero(c.body(no, nc, 0, steps));
    let cost = c.cost(no, nc, 0, steps);
    assert(ends_within(c, cost) && trace(c, cost) == sequenced(first, arrivals(arriving, steps)));
}

} // verus!
