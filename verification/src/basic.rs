//! The producers that hold their events outright: none, one, or a list.

use vstd::prelude::*;
use crate::source::{Source, Step, after, delays_within, emits, ends_within, trace};

verus! {

/// An owned list that gives up its items front first.
pub enum Queue<T> {
    Nil,
    Cons(T, Box<Queue<T>>),
}

impl<T> Queue<T> {
    /// The items, front first.
    pub open spec fn items(self) -> Seq<T>
        decreases self,
    {
        match self {
            Queue::Nil => Seq::empty(),
            Queue::Cons(x, rest) => seq![x] + rest.items(),
        }
    }

    /// The queue whose items are those of `s`, in their order.
    pub open spec fn of(s: Seq<T>) -> Self
        decreases s.len(),
    {
        if s.len() == 0 {
            Queue::Nil
        } else {
            Queue::Cons(s[0], Box::new(Self::of(s.subrange(1, s.len() as int))))
        }
    }

    /// The items of the queue of `s` are `s`.
    pub proof fn lemma_items_of(s: Seq<T>)
        ensures
            Self::of(s).items() == s,
        decreases s.len(),
    {
        if s.len() > 0 {
            Self::lemma_items_of(s.subrange(1, s.len() as int));
            assert(seq![s[0]] + s.subrange(1, s.len() as int) == s);
        }
    }

    /// A queue is the queue of its items.
    pub proof fn lemma_of_items(self)
        ensures
            Self::of(self.items()) == self,
        decreases self,
    {
        match self {
            Queue::Nil => {},
            Queue::Cons(x, rest) => {
                rest.lemma_of_items();
                let s = self.items();
                assert(s.subrange(1, s.len() as int) == rest.items());
            },
        }
    }

    /// The queue of the items of `v`, in their order.
    pub fn from_vec(v: Vec<T>) -> (q: Self)
        ensures
            q == Self::of(v@),
    {
        let mut v = v;
        let mut q = Queue::Nil;
        let ghost all = v@;
        while v.len() > 0
            invariant
                v@ == all.subrange(0, v@.len() as int),
                v@.len() <= all.len(),
                q == Self::of(all.subrange(v@.len() as int, all.len() as int)),
            decreases v.len(),
        {
            let ghost k = v@.len();
            match v.pop() {
                Some(x) => {
                    q = Queue::Cons(x, Box::new(q));
                    proof {
                        let from = all.subrange(k - 1, all.len() as int);
                        assert(from.subrange(1, from.len() as int) == all.subrange(
                            k as int,
                            all.len() as int,
                        ));
                        assert(from[0] == x);
                        assert(v@ == all.subrange(0, k - 1));
                    }
                },
                None => {},
            }
        }
        assert(all.subrange(0, all.len() as int) == all);
        q
    }

    /// Takes the front item off, if there is one.
    pub fn pop_front(&mut self) -> (x: Option<T>)
        ensures
            match *old(self) {
                Queue::Nil => x is None && *final(self) == Queue::<T>::Nil,
                Queue::Cons(y, rest) => x == Some(y) && *final(self) == *rest,
            },
    {
        let mut taken = Queue::Nil;
        core::mem::swap(self, &mut taken);
        match taken {
            Queue::Nil => None,
            Queue::Cons(y, rest) => {
                *self = *rest;
                Some(y)
            },
        }
    }
}

/// A finite collection that can be handed over item by item.
pub trait Batch: Sized {
    type Item;

    /// The items, in the order in which they are handed over.
    spec fn contents(&self) -> Seq<Self::Item>;

    fn into_queue(self) -> (q: Queue<Self::Item>)
        ensures
            q == Queue::of(self.contents()),
    ;
}

impl<T> Batch for Vec<T> {
    type Item = T;

    open spec fn contents(&self) -> Seq<T> {
        self@
    }

    fn into_queue(self) -> (q: Queue<T>) {
        Queue::from_vec(self)
    }
}

impl<T> Batch for Queue<T> {
    type Item = T;

    open spec fn contents(&self) -> Seq<T> {
        self.items()
    }

    fn into_queue(self) -> (q: Queue<T>) {
        proof {
            self.lemma_of_items();
        }
        self
    }
}

/// The producer of no event.
pub struct Empty<E> {
    pub marker: core::marker::PhantomData<E>,
}

impl<E> Source for Empty<E> {
    type Event = E;

    open spec fn inv(&self) -> bool {
        true
    }

    open spec fn stepped(&self) -> (Step<E>, Self) {
        (Step::Done, *self)
    }

    fn step(&mut self) -> (out: Step<E>) {
        Step::Done
    }
}

/// The producer of one event at delay 0.
pub struct Once<E> {
    pub item: Option<E>,
}

impl<E> Source for Once<E> {
    type Event = E;

    open spec fn inv(&self) -> bool {
        true
    }

    open spec fn stepped(&self) -> (Step<E>, Self) {
        match self.item {
            Some(e) => (Step::Emit(0, e), Once { item: None }),
            None => (Step::Done, *self),
        }
    }

    fn step(&mut self) -> (out: Step<E>) {
        match self.item.take() {
            Some(e) => Step::Emit(0, e),
            None => Step::Done,
        }
    }
}

/// The producer of a given finite list of events.
pub struct Pairs<E> {
    pub queue: Queue<(u64, E)>,
}

impl<E> Source for Pairs<E> {
    type Event = E;

    open spec fn inv(&self) -> bool {
        true
    }

    open spec fn stepped(&self) -> (Step<E>, Self) {
        match self.queue {
            Queue::Cons((d, e), rest) => (Step::Emit(d, e), Pairs { queue: *rest }),
            Queue::Nil => (Step::Done, *self),
        }
    }

    fn step(&mut self) -> (out: Step<E>) {
        match self.queue.pop_front() {
            Some((d, e)) => Step::Emit(d, e),
            None => Step::Done,
        }
    }
}

/// The empty stream emits nothing.
pub proof fn lemma_empty_emits<E>(s: Empty<E>)
    ensures
        emits(s, Seq::empty()),
{
    assert(ends_within(s, 1));
    assert(trace(s, 1) == Seq::<(u64, E)>::empty());
}

/// `immediate(e)` emits `e` at delay 0 and nothing else.
pub proof fn lemma_once_emits<E>(e: E)
    ensures
        emits(Once { item: Some(e) }, seq![(0u64, e)]),
{
    let s = Once { item: Some(e) };
    let t = s.stepped().1;
    assert(ends_within(t, 1));
    assert(ends_within(s, 2));
    assert(trace(t, 1) == Seq::<(u64, E)>::empty());
    assert(trace(s, 2) == seq![(0u64, e)] + Seq::empty());
    assert(seq![(0u64, e)] + Seq::empty() == seq![(0u64, e)]);
}

/// `from_iter(pairs)` emits the events of `pairs`, in their order, and
/// nothing else.
pub proof fn lemma_pairs_emits<E>(events: Seq<(u64, E)>)
    ensures
        ends_within(Pairs { queue: Queue::of(events) }, events.len() + 1),
        trace(Pairs { queue: Queue::of(events) }, events.len() + 1) == events,
        emits(Pairs { queue: Queue::of(events) }, events),
    decreases events.len(),
{
    let s = Pairs { queue: Queue::of(events) };
    if events.len() > 0 {
        let tail = events.drop_first();
        assert(tail == events.subrange(1, events.len() as int));
        lemma_pairs_emits(tail);
        assert(s.stepped().1 == Pairs { queue: Queue::of(tail) });
        assert(seq![events[0]] + tail == events);
    } else {
        assert(trace(s, 1) == Seq::<(u64, E)>::empty());
    }
}

/// The stream of a list emits no delay above those of the list.
pub proof fn lemma_pairs_delays<E>(events: Seq<(u64, E)>, bound: nat)
    requires
        forall|i: int| 0 <= i < events.len() ==> events[i].0 <= bound,
    ensures
        delays_within(Pairs { queue: Queue::of(events) }, bound),
{
    let s = Pairs { queue: Queue::of(events) };
    assert forall|k: nat|
        match (#[trigger] after(s, k)).stepped().0 {
            Step::Emit(d, _) => d <= bound,
            _ => true,
        } by {
        lemma_pairs_after(events, k);
        if k < events.len() {
            let rest = events.subrange(k as int, events.len() as int);
            assert(rest[0] == events[k as int]);
        }
    }
}

/// After `k` steps the stream of a list is the stream of the list without
/// its first `k` events.
pub proof fn lemma_pairs_after<E>(events: Seq<(u64, E)>, k: nat)
    ensures
        after(Pairs { queue: Queue::of(events) }, k) == (Pairs {
            queue: Queue::of(
                if k <= events.len() {
                    events.subrange(k as int, events.len() as int)
                } else {
                    Seq::empty()
                },
            ),
        }),
    decreases k,
{
    let s = Pairs { queue: Queue::of(events) };
    if k == 0 {
        assert(events.subrange(0, events.len() as int) == events);
    } else if events.len() == 0 {
        lemma_pairs_after(events, (k - 1) as nat);
        assert(s.stepped().1 == s);
        assert(events.subrange(0, 0) == Seq::<(u64, E)>::empty());
    } else {
        let tail = events.subrange(1, events.len() as int);
        lemma_pairs_after(tail, (k - 1) as nat);
        assert(s.stepped().1 == Pairs { queue: Queue::of(tail) });
        if k <= events.len() {
            assert(tail.subrange(k - 1, tail.len() as int) == events.subrange(
                k as int,
                events.len() as int,
            ));
        }
    }
}

} // verus!
