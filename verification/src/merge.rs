//! Interleaving two streams by time.

use vstd::prelude::*;
use crate::source::{Source, Step, emits, ends_within, lemma_ends_more, trace};
use crate::timeline::{late, merged, merged_all};
use crate::stream::Stream;

verus! {

/// The one event that a merge looks ahead on a side.
pub enum Slot<E> {
    /// Nothing is held: the side must be asked.
    Fresh,
    /// The side's next event, its delay counted from the last event that the
    /// merge emitted.
    Held(u64, E),
    /// The side has ended.
    Spent,
}

/// What a side's answer leaves in its slot.
pub open spec fn filled<E>(out: Step<E>) -> Slot<E> {
    match out {
        Step::Emit(d, e) => Slot::Held(d, e),
        Step::Skip => Slot::Fresh,
        Step::Done => Slot::Spent,
    }
}

/// The event that comes next when neither slot is fresh, and the two slots
/// after it: the earlier event goes out, the left one where both fall
/// together, and the other one moves that much closer.
pub open spec fn picked<E>(left: Slot<E>, right: Slot<E>) -> (Step<E>, Slot<E>, Slot<E>) {
    match (left, right) {
        (Slot::Held(d1, e1), Slot::Held(d2, e2)) => if d1 <= d2 {
            (Step::Emit(d1, e1), Slot::Fresh, Slot::Held((d2 - d1) as u64, e2))
        } else {
            (Step::Emit(d2, e2), Slot::Held((d1 - d2) as u64, e1), Slot::Fresh)
        },
        (Slot::Held(d1, e1), _) => (Step::Emit(d1, e1), Slot::Fresh, right),
        (_, Slot::Held(d2, e2)) => (Step::Emit(d2, e2), left, Slot::Fresh),
        _ => (Step::Done, left, right),
    }
}

/// Puts a side's answer in its slot.
pub fn fill<E>(out: Step<E>) -> (slot: Slot<E>)
    ensures
        slot == filled(out),
{
    match out {
        Step::Emit(d, e) => Slot::Held(d, e),
        Step::Skip => Slot::Fresh,
        Step::Done => Slot::Spent,
    }
}

/// Takes the next event out of two slots of which neither is fresh.
pub fn pick<E>(left: &mut Slot<E>, right: &mut Slot<E>) -> (out: Step<E>)
    requires
        !(*old(left) is Fresh),
        !(*old(right) is Fresh),
    ensures
        (out, *final(left), *final(right)) == picked(*old(left), *old(right)),
{
    let mut l = Slot::Fresh;
    let mut r = Slot::Fresh;
    core::mem::swap(left, &mut l);
    core::mem::swap(right, &mut r);
    match (l, r) {
        (Slot::Held(d1, e1), Slot::Held(d2, e2)) => {
            if d1 <= d2 {
                *right = Slot::Held(d2 - d1, e2);
                Step::Emit(d1, e1)
            } else {
                *left = Slot::Held(d1 - d2, e1);
                Step::Emit(d2, e2)
            }
        },
        (Slot::Held(d1, e1), r) => {
            *right = r;
            Step::Emit(d1, e1)
        },
        (l, Slot::Held(d2, e2)) => {
            *left = l;
            Step::Emit(d2, e2)
        },
        (l, r) => {
            *left = l;
            *right = r;
            Step::Done
        },
    }
}

/// `left` and `right` in one stream, ordered by the time at which each event
/// falls; where two fall together, the one of `left` comes first.
pub struct Merge<A: Source, B: Source<Event = A::Event>> {
    pub left: A,
    pub right: B,
    pub left_head: Slot<A::Event>,
    pub right_head: Slot<A::Event>,
}

impl<A: Source, B: Source<Event = A::Event>> Source for Merge<A, B> {
    type Event = A::Event;

    open spec fn inv(&self) -> bool {
        self.left.inv() && self.right.inv()
    }

    open spec fn stepped(&self) -> (Step<A::Event>, Self) {
        if self.left_head is Fresh {
            let (out, left) = self.left.stepped();
            (
                Step::Skip,
                Merge {
                    left,
                    right: self.right,
                    left_head: filled(out),
                    right_head: self.right_head,
                },
            )
        } else if self.right_head is Fresh {
            let (out, right) = self.right.stepped();
            (
                Step::Skip,
                Merge {
                    left: self.left,
                    right,
                    left_head: self.left_head,
                    right_head: filled(out),
                },
            )
        } else {
            let (out, left_head, right_head) = picked(self.left_head, self.right_head);
            (out, Merge { left: self.left, right: self.right, left_head, right_head })
        }
    }

    fn step(&mut self) -> (out: Step<A::Event>) {
        if matches!(self.left_head, Slot::Fresh) {
            self.left_head = fill(self.left.step());
            Step::Skip
        } else if matches!(self.right_head, Slot::Fresh) {
            self.right_head = fill(self.right.step());
            Step::Skip
        } else {
            pick(&mut self.left_head, &mut self.right_head)
        }
    }
}

/// What a side of a merge still has to give: the event in its slot, then
/// the events `events` of its stream.
pub open spec fn side<E>(slot: Slot<E>, events: Seq<(u64, E)>) -> Seq<(u64, E)> {
    match slot {
        Slot::Fresh => events,
        Slot::Held(d, e) => seq![(d, e)] + events,
        Slot::Spent => Seq::empty(),
    }
}

/// The steps that a side of a merge takes at most, when its stream ends
/// within `n` steps.
pub open spec fn weight<E>(slot: Slot<E>, n: nat) -> nat {
    match slot {
        Slot::Fresh => 2 * n,
        Slot::Held(_, _) => 2 * n + 1,
        Slot::Spent => 0,
    }
}

/// A merge of two streams that end emits what `merged` makes of what its
/// two sides still have to give.
pub proof fn lemma_merge<A: Source, B: Source<Event = A::Event>>(c: Merge<A, B>, na: nat, nb: nat)
    requires
        !(c.left_head is Spent) ==> ends_within(c.left, na),
        !(c.right_head is Spent) ==> ends_within(c.right, nb),
    ensures
        ends_within(c, weight(c.left_head, na) + weight(c.right_head, nb) + 1),
        trace(c, weight(c.left_head, na) + weight(c.right_head, nb) + 1) == merged(
            side(c.left_head, trace(c.left, na)),
            side(c.right_head, trace(c.right, nb)),
        ),
    decreases weight(c.left_head, na) + weight(c.right_head, nb),
{
    let next = c.stepped().1;
    let cost = weight(c.left_head, na) + weight(c.right_head, nb) + 1;
    let l = side(c.left_head, trace(c.left, na));
    let r = side(c.right_head, trace(c.right, nb));
    if c.left_head is Fresh {
        let ma = (na - 1) as nat;
        lemma_merge(next, ma, nb);
        lemma_ends_more(
            next,
            weight(next.left_head, ma) + weight(next.right_head, nb) + 1,
            (cost - 1) as nat,
        );
        assert(side(next.left_head, trace(next.left, ma)) == l);
    } else if c.right_head is Fresh {
        let mb = (nb - 1) as nat;
        lemma_merge(next, na, mb);
        lemma_ends_more(
            next,
            weight(next.left_head, na) + weight(next.right_head, mb) + 1,
            (cost - 1) as nat,
        );
        assert(side(next.right_head, trace(next.right, mb)) == r);
    } else {
        match (c.left_head, c.right_head) {
            (Slot::Held(d1, e1), Slot::Held(d2, e2)) => {
                lemma_merge(next, na, nb);
                assert(l[0] == (d1, e1));
                assert(r[0] == (d2, e2));
                assert(l.drop_first() == trace(c.left, na));
                assert(r.drop_first() == trace(c.right, nb));
                if d1 <= d2 {
                    assert(side(next.right_head, trace(c.right, nb)) == late(r, -(d1 as int)));
                } else {
                    assert(side(next.left_head, trace(c.left, na)) == late(l, -(d2 as int)));
                }
            },
            (Slot::Held(d1, e1), _) => {
                lemma_merge(next, na, nb);
                assert(l[0] == (d1, e1));
                assert(l.drop_first() == trace(c.left, na));
                assert(merged(trace(c.left, na), Seq::empty()) == trace(c.left, na));
                assert(merged(l, Seq::empty()) == l);
            },
            (_, Slot::Held(d2, e2)) => {
                lemma_merge(next, na, nb);
                assert(r[0] == (d2, e2));
                assert(r.drop_first() == trace(c.right, nb));
            },
            _ => {},
        }
    }
}

/// The merge of two streams that end ends, and it emits what `merged` makes
/// of their events.
pub proof fn lemma_merge_emits<A: Source, B: Source<Event = A::Event>>(
    left: A,
    right: B,
    l: Seq<(u64, A::Event)>,
    r: Seq<(u64, A::Event)>,
)
    requires
        emits(left, l),
        emits(right, r),
    ensures
        emits(
            Merge { left, right, left_head: Slot::Fresh, right_head: Slot::Fresh },
            merged(l, r),
        ),
{
    let na = choose|n: nat| ends_within(left, n) && trace(left, n) == l;
    let nb = choose|n: nat| ends_within(right, n) && trace(right, n) == r;
    let c = Merge { left, right, left_head: Slot::Fresh, right_head: Slot::Fresh };
    lemma_merge(c, na, nb);
    let cost = 2 * na + 2 * nb + 1;
    assert(ends_within(c, cost) && trace(c, cost) == merged(l, r));
}

/// Any number of streams of one kind merged from the left: the merge of none
/// is empty, the merge of one is that stream, and the merge of more is the
/// merge of all but the last with the last.
pub enum Fold<S: Source> {
    Nil,
    Leaf(S),
    Node { left: Box<Fold<S>>, right: S, left_head: Slot<S::Event>, right_head: Slot<S::Event> },
}

impl<S: Source> Fold<S> {
    /// The fold of `streams`, none of them read yet.
    pub open spec fn of(streams: Seq<Stream<S>>) -> Self
        decreases streams.len(),
    {
        if streams.len() == 0 {
            Fold::Nil
        } else if streams.len() == 1 {
            Fold::Leaf(streams[0].source)
        } else {
            Fold::Node {
                left: Box::new(Self::of(streams.drop_last())),
                right: streams.last().source,
                left_head: Slot::Fresh,
                right_head: Slot::Fresh,
            }
        }
    }

    /// Every stream in the fold may be read.
    pub open spec fn sound(&self) -> bool
        decreases self,
    {
        match *self {
            Fold::Nil => true,
            Fold::Leaf(source) => source.inv(),
            Fold::Node { left, right, .. } => left.sound() && right.inv(),
        }
    }

    /// The outcome of one step and the state it leaves.
    pub open spec fn advanced(&self) -> (Step<S::Event>, Self)
        decreases self,
    {
        match *self {
            Fold::Nil => (Step::Done, *self),
            Fold::Leaf(source) => (source.stepped().0, Fold::Leaf(source.stepped().1)),
            Fold::Node { left, right, left_head, right_head } => if left_head is Fresh {
                let (out, next) = left.advanced();
                (
                    Step::Skip,
                    Fold::Node { left: Box::new(next), right, left_head: filled(out), right_head },
                )
            } else if right_head is Fresh {
                let (out, next) = right.stepped();
                (Step::Skip, Fold::Node { left, right: next, left_head, right_head: filled(out) })
            } else {
                let (out, l, r) = picked(left_head, right_head);
                (out, Fold::Node { left, right, left_head: l, right_head: r })
            },
        }
    }

    /// Takes one step.
    pub fn advance(&mut self) -> (out: Step<S::Event>)
        requires
            old(self).sound(),
        ensures
            final(self).sound(),
            (out, *final(self)) == old(self).advanced(),
        decreases *old(self),
    {
        match self {
            Fold::Nil => Step::Done,
            Fold::Leaf(source) => source.step(),
            Fold::Node { left, right, left_head, right_head } => {
                if matches!(left_head, Slot::Fresh) {
                    *left_head = fill(left.advance());
                    Step::Skip
                } else if matches!(right_head, Slot::Fresh) {
                    *right_head = fill(right.step());
                    Step::Skip
                } else {
                    pick(left_head, right_head)
                }
            },
        }
    }
}

impl<S: Source> Source for Fold<S> {
    type Event = S::Event;

    open spec fn inv(&self) -> bool {
        self.sound()
    }

    open spec fn stepped(&self) -> (Step<S::Event>, Self) {
        self.advanced()
    }

    fn step(&mut self) -> (out: Step<S::Event>) {
        self.advance()
    }
}

/// A fold of more than one stream steps as the merge of the fold of all but
/// the last with the last does: it ends when that merge ends, and emits what
/// it emits.
pub proof fn lemma_fold_node<S: Source>(
    left: Fold<S>,
    right: S,
    left_head: Slot<S::Event>,
    right_head: Slot<S::Event>,
    n: nat,
)
    ensures
        ends_within(Fold::Node { left: Box::new(left), right, left_head, right_head }, n)
            == ends_within(Merge { left, right, left_head, right_head }, n),
        trace(Fold::Node { left: Box::new(left), right, left_head, right_head }, n) == trace(
            Merge { left, right, left_head, right_head },
            n,
        ),
    decreases n,
{
    if n > 0 {
        let m = Merge { left, right, left_head, right_head };
        let next = m.stepped().1;
        let node = Fold::Node { left: Box::new(left), right, left_head, right_head };
        assert(node.stepped().0 == m.stepped().0);
        assert(node.stepped().1 == Fold::Node {
            left: Box::new(next.left),
            right: next.right,
            left_head: next.left_head,
            right_head: next.right_head,
        });
        lemma_fold_node(next.left, next.right, next.left_head, next.right_head, (n - 1) as nat);
    }
}

/// `merge_all` of streams that end ends, and it emits what merging their
/// events from the left gives.
pub proof fn lemma_merge_all_emits<S: Source>(
    streams: Seq<Stream<S>>,
    lists: Seq<Seq<(u64, S::Event)>>,
)
    requires
        lists.len() == streams.len(),
        forall|i: int| 0 <= i < streams.len() ==> emits(streams[i].source, #[trigger] lists[i]),
    ensures
        emits(Fold::of(streams), merged_all(lists)),
    decreases streams.len(),
{
    let fold = Fold::of(streams);
    if streams.len() == 0 {
        assert(ends_within(fold, 1));
        assert(trace(fold, 1) == Seq::<(u64, S::Event)>::empty());
    } else if streams.len() == 1 {
        let s = streams[0].source;
        let n = choose|n: nat| ends_within(s, n) && trace(s, n) == lists[0];
        lemma_leaf(s, n);
    } else {
        let front = streams.drop_last();
        let left = Fold::of(front);
        let right = streams.last().source;
        lemma_merge_all_emits(front, lists.drop_last());
        assert(emits(right, lists.last()));
        lemma_merge_emits(left, right, merged_all(lists.drop_last()), lists.last());
        let m = Merge { left, right, left_head: Slot::Fresh, right_head: Slot::Fresh };
        let n = choose|n: nat| ends_within(m, n) && trace(m, n) == merged_all(lists);
        lemma_fold_node(left, right, Slot::Fresh, Slot::Fresh, n);
        assert(ends_within(fold, n) && trace(fold, n) == merged_all(lists));
    }
}

/// A fold of one stream steps as that stream does.
pub proof fn lemma_leaf<S: Source>(s: S, n: nat)
    ensures
        ends_within(Fold::Leaf(s), n) == ends_within(s, n),
        trace(Fold::Leaf(s), n) == trace(s, n),
    decreases n,
{
    if n > 0 {
        assert(Fold::Leaf(s).stepped().1 == Fold::Leaf(s.stepped().1));
        lemma_leaf(s.stepped().1, (n - 1) as nat);
    }
}

} // verus!
