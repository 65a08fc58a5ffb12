//! A stream that is computed as it is read, from a state and a function.

use vstd::prelude::*;
use crate::apply::Mapper;
use crate::source::{Source, Step};

verus! {

/// The stream that `grow` unfolds from a state: called on the state, it
/// gives the next event and the next state, or `None` at the end.
pub struct Unfold<T, F> {
    /// The state, until the end is reached.
    pub state: Option<T>,
    pub grow: F,
}

impl<T, E, F: Mapper<T, Out = Option<((u64, E), T)>>> Unfold<T, F> {
    /// The next step calls `grow` only where it may be called.
    pub open spec fn ready(&self) -> bool {
        match self.state {
            Some(state) => self.grow.accepts(state),
            None => true,
        }
    }

    /// The outcome of one step and the state it leaves.
    pub open spec fn advanced(&self) -> (Step<E>, Self) {
        match self.state {
            Some(state) => {
                let (out, grow) = self.grow.applied(state);
                match out {
                    Some(((d, e), next)) => (Step::Emit(d, e), Unfold { state: Some(next), grow }),
                    None => (Step::Done, Unfold { state: None, grow }),
                }
            },
            None => (Step::Done, *self),
        }
    }

    /// The state after `n` steps.
    pub open spec fn later(&self, n: nat) -> Self
        decreases n,
    {
        if n == 0 {
            *self
        } else {
            self.advanced().1.later((n - 1) as nat)
        }
    }
}

impl<T, E, F: Mapper<T, Out = Option<((u64, E), T)>>> Source for Unfold<T, F> {
    type Event = E;

    open spec fn inv(&self) -> bool {
        forall|n: nat| (#[trigger] self.later(n)).ready()
    }

    open spec fn stepped(&self) -> (Step<E>, Self) {
        self.advanced()
    }

    fn step(&mut self) -> (out: Step<E>) {
        let ghost next = self.advanced().1;
        proof {
            assert(self.later(0).ready());
            assert forall|n: nat| (#[trigger] next.later(n)).ready() by {
                assert(self.later(n + 1).ready());
            }
        }
        let out = match self.state.take() {
            Some(state) => match self.grow.apply(state) {
                Some(((d, e), next)) => {
                    self.state = Some(next);
                    Step::Emit(d, e)
                },
                None => Step::Done,
            },
            None => Step::Done,
        };
        assert(*self == next);
        out
    }
}

} // verus!
