//! Finite event lists as mathematics: how long one lasts, when each of its
//! events falls, and what trimming it at a point in time leaves.

use vstd::prelude::*;

verus! {

/// The time from the start of `events` to its last event: the sum of its
/// delays.
pub open spec fn span<E>(events: Seq<(u64, E)>) -> nat
    decreases events.len(),
{
    if events.len() == 0 {
        0
    } else {
        span(events.drop_last()) + events.last().0 as nat
    }
}

/// Adding an event adds its delay to the span.
pub proof fn lemma_span_push<E>(events: Seq<(u64, E)>, d: u64, e: E)
    ensures
        span(events.push((d, e))) == span(events) + d,
{
    assert(events.push((d, e)).drop_last() == events);
}

/// The start of a list lasts no longer than the list.
pub proof fn lemma_span_take<E>(events: Seq<(u64, E)>, i: int)
    requires
        0 <= i <= events.len(),
    ensures
        span(events.take(i)) <= span(events),
        i < events.len() ==> span(events.take(i + 1)) == span(events.take(i)) + events[i].0,
    decreases events.len() - i,
{
    if i < events.len() {
        lemma_span_take(events, i + 1);
        assert(events.take(i + 1).drop_last() == events.take(i));
    } else {
        assert(events.take(i) == events);
    }
}

/// The first delay of a list is part of its span.
pub proof fn lemma_span_first<E>(events: Seq<(u64, E)>)
    requires
        events.len() > 0,
    ensures
        events[0].0 <= span(events),
    decreases events.len(),
{
    if events.len() > 1 {
        lemma_span_first(events.drop_last());
    } else {
        assert(events.drop_last().len() == 0);
    }
}

/// The events of `events` with the time at which each falls, counted from a
/// clock that shows `origin` when `events` starts.
pub open spec fn moments<E>(events: Seq<(u64, E)>, origin: int) -> Seq<(int, E)>
    decreases events.len(),
{
    if events.len() == 0 {
        Seq::empty()
    } else {
        seq![(origin + events[0].0, events[0].1)] + moments(
            events.drop_first(),
            origin + events[0].0,
        )
    }
}

/// What is left of `events` when it is cut off `duration` ticks after its
/// start: the events up to the first one that would fall later.
pub open spec fn kept<E>(events: Seq<(u64, E)>, duration: int) -> Seq<(u64, E)>
    decreases events.len(),
{
    if events.len() == 0 {
        Seq::empty()
    } else if events[0].0 <= duration {
        seq![events[0]] + kept(events.drop_first(), duration - events[0].0)
    } else {
        Seq::empty()
    }
}

/// What is left of `events` when its first `duration` ticks are dropped: the
/// events from the first one that does not fall before `duration`, on a clock
/// that starts `duration` ticks later.
pub open spec fn dropped<E>(events: Seq<(u64, E)>, duration: int) -> Seq<(u64, E)>
    decreases events.len(),
{
    if events.len() == 0 {
        Seq::empty()
    } else if events[0].0 >= duration {
        seq![((events[0].0 - duration) as u64, events[0].1)] + events.drop_first()
    } else {
        dropped(events.drop_first(), duration - events[0].0)
    }
}

/// `events` with its first event `extra` ticks later, and so all of them.
pub open spec fn late<E>(events: Seq<(u64, E)>, extra: int) -> Seq<(u64, E)> {
    if events.len() == 0 {
        events
    } else {
        seq![((events[0].0 + extra) as u64, events[0].1)] + events.drop_first()
    }
}

/// `first` cut off `threshold` ticks after its start, then `second`, whose
/// clock starts `threshold` ticks after that of `first`: its first event
/// comes later by the time that `first` left unused.
pub open spec fn spliced<E>(first: Seq<(u64, E)>, threshold: int, second: Seq<(u64, E)>) -> Seq<
    (u64, E),
> {
    kept(first, threshold) + late(second, threshold - span(kept(first, threshold)))
}

/// Two lists in one, ordered by the time at which each event falls; of two
/// events that fall together the one of `left` comes first, and events of
/// one list stay in their order.
pub open spec fn merged<E>(left: Seq<(u64, E)>, right: Seq<(u64, E)>) -> Seq<(u64, E)>
    decreases left.len() + right.len(),
{
    if left.len() == 0 {
        right
    } else if right.len() == 0 {
        left
    } else if left[0].0 <= right[0].0 {
        seq![left[0]] + merged(left.drop_first(), late(right, -left[0].0))
    } else {
        seq![right[0]] + merged(late(left, -right[0].0), right.drop_first())
    }
}

/// The lists of `lists` merged from the left.
pub open spec fn merged_all<E>(lists: Seq<Seq<(u64, E)>>) -> Seq<(u64, E)>
    decreases lists.len(),
{
    if lists.len() == 0 {
        Seq::empty()
    } else if lists.len() == 1 {
        lists[0]
    } else {
        merged(merged_all(lists.drop_last()), lists.last())
    }
}

/// The list that plays `present` until the first list of `replacements`
/// arrives, that one until the second arrives, and so on: `present` spliced,
/// at the time of the first arrival, with what the replacements play from
/// then on.
pub open spec fn sequenced<E>(present: Seq<(u64, E)>, replacements: Seq<(u64, Seq<(u64, E)>)>)
    -> Seq<(u64, E)>
    decreases replacements.len(),
{
    if replacements.len() == 0 {
        present
    } else {
        spliced(
            present,
            replacements[0].0 as int,
            sequenced(replacements[0].1, replacements.drop_first()),
        )
    }
}

/// The span of a list is the delay of its first event and the span of the
/// others.
pub proof fn lemma_span_cons<E>(events: Seq<(u64, E)>)
    requires
        events.len() > 0,
    ensures
        span(events) == events[0].0 + span(events.drop_first()),
    decreases events.len(),
{
    let front = events.drop_last();
    let back = events.drop_first();
    if events.len() == 1 {
        assert(front.len() == 0);
        assert(back.len() == 0);
        assert(span(front) == 0);
        assert(span(back) == 0);
        assert(events.last() == events[0]);
    } else {
        lemma_span_cons(front);
        assert(front.drop_first() == back.drop_last());
        assert(front[0] == events[0]);
        assert(back.last() == events.last());
        assert(span(back) == span(back.drop_last()) + back.last().0);
        assert(span(events) == span(front) + events.last().0);
    }
}

/// What is kept of a list lasts no longer than the time it was cut at.
pub proof fn lemma_kept_span<E>(events: Seq<(u64, E)>, duration: int)
    requires
        0 <= duration,
    ensures
        span(kept(events, duration)) <= duration,
    decreases events.len(),
{
    if events.len() > 0 && events[0].0 <= duration {
        let cut = kept(events, duration);
        lemma_kept_span(events.drop_first(), duration - events[0].0);
        lemma_span_cons(cut);
        assert(cut.drop_first() == kept(events.drop_first(), duration - events[0].0));
    }
}

/// Making a list no later changes nothing.
pub proof fn lemma_late_zero<E>(events: Seq<(u64, E)>)
    ensures
        late(events, 0) == events,
{
    if events.len() > 0 {
        assert(seq![events[0]] + events.drop_first() == events);
    }
}

/// Dropping nothing changes nothing.
pub proof fn lemma_dropped_zero<E>(events: Seq<(u64, E)>)
    ensures
        dropped(events, 0) == events,
{
    if events.len() > 0 {
        assert(seq![events[0]] + events.drop_first() == events);
    }
}

/// What holds of the first event and of the others holds of all.
pub proof fn lemma_contains_first<A>(s: Seq<A>, x: A)
    requires
        s.len() > 0,
    ensures
        s.contains(x) <==> (s[0] == x || s.drop_first().contains(x)),
{
    if s.contains(x) {
        let i = choose|i: int| 0 <= i < s.len() && s[i] == x;
        if i > 0 {
            assert(s.drop_first()[i - 1] == x);
        }
    }
    if s.drop_first().contains(x) {
        let i = choose|i: int| 0 <= i < s.drop_first().len() && s.drop_first()[i] == x;
        assert(s[i + 1] == x);
    }
}

/// Every moment of the part that is kept is a moment of the whole.
pub proof fn lemma_kept_moments<E>(events: Seq<(u64, E)>, duration: int, origin: int, m: (int, E))
    requires
        moments(kept(events, duration), origin).contains(m),
    ensures
        moments(events, origin).contains(m),
    decreases events.len(),
{
    if events.len() > 0 && events[0].0 <= duration {
        let first = events[0];
        let tail = events.drop_first();
        let cut = kept(events, duration);
        assert(cut[0] == first);
        assert(cut.drop_first() == kept(tail, duration - first.0));
        lemma_contains_first(moments(cut, origin), m);
        lemma_contains_first(moments(events, origin), m);
        assert(moments(cut, origin).drop_first() == moments(cut.drop_first(), origin + first.0));
        assert(moments(events, origin).drop_first() == moments(tail, origin + first.0));
        if moments(cut, origin)[0] != m {
            lemma_kept_moments(tail, duration - first.0, origin + first.0, m);
        }
    }
}

/// Cutting a list at a point in time and dropping what comes before that
/// point lose no event and invent none: an event falls at some time in the
/// whole list exactly if it falls at that time in the part kept, or in the
/// part left after dropping, whose clock starts `duration` ticks later.
pub proof fn lemma_kept_dropped<E>(events: Seq<(u64, E)>, duration: int, origin: int, m: (int, E))
    requires
        0 <= duration,
    ensures
        moments(events, origin).contains(m) <==> (moments(kept(events, duration), origin).contains(
            m,
        ) || moments(dropped(events, duration), origin + duration).contains(m)),
    decreases events.len(),
{
    if events.len() > 0 {
        let first = events[0];
        let tail = events.drop_first();
        let whole = moments(events, origin);
        lemma_contains_first(whole, m);
        assert(whole.drop_first() == moments(tail, origin + first.0));
        if first.0 >= duration {
            let left = dropped(events, duration);
            assert(left.drop_first() == tail);
            assert(left[0] == ((first.0 - duration) as u64, first.1));
            assert(moments(left, origin + duration).drop_first() == moments(
                tail,
                origin + first.0,
            ));
            assert(moments(left, origin + duration)[0] == whole[0]);
            assert(moments(left, origin + duration) =~= seq![whole[0]] + whole.drop_first());
            assert(moments(left, origin + duration) == whole);
            if moments(kept(events, duration), origin).contains(m) {
                lemma_kept_moments(events, duration, origin, m);
            }
        } else {
            let cut = kept(events, duration);
            assert(cut[0] == first);
            assert(cut.drop_first() == kept(tail, duration - first.0));
            lemma_contains_first(moments(cut, origin), m);
            assert(moments(cut, origin).drop_first() == moments(
                cut.drop_first(),
                origin + first.0,
            ));
            lemma_kept_dropped(tail, duration - first.0, origin + first.0, m);
        }
    }
}

/// Time never runs backwards: no event of a list falls before the clock's
/// origin, and none falls before an event that comes earlier in the list.
pub proof fn lemma_moments_ordered<E>(events: Seq<(u64, E)>, origin: int, i: int, j: int)
    requires
        0 <= i <= j < events.len(),
    ensures
        moments(events, origin).len() == events.len(),
        origin <= moments(events, origin)[i].0 <= moments(events, origin)[j].0,
        moments(events, origin)[i].1 == events[i].1,
    decreases events.len(),
{
    let tail = events.drop_first();
    let start = origin + events[0].0;
    lemma_moments_len(events, origin);
    lemma_moments_len(tail, start);
    if i > 0 {
        lemma_moments_ordered(tail, start, i - 1, j - 1);
    } else if j > 0 {
        lemma_moments_ordered(tail, start, 0, j - 1);
    }
}

/// A list has as many moments as events.
pub proof fn lemma_moments_len<E>(events: Seq<(u64, E)>, origin: int)
    ensures
        moments(events, origin).len() == events.len(),
    decreases events.len(),
{
    if events.len() > 0 {
        lemma_moments_len(events.drop_first(), origin + events[0].0);
    }
}

/// Making a list later moves its clock: the moments of the list made later
/// by `extra` are those of the list on a clock that starts `extra` later.
pub proof fn lemma_late_moments<E>(events: Seq<(u64, E)>, extra: int, origin: int)
    requires
        events.len() > 0 ==> 0 <= events[0].0 + extra <= u64::MAX,
    ensures
        moments(late(events, extra), origin) == moments(events, origin + extra),
{
    if events.len() > 0 {
        let moved = late(events, extra);
        assert(moved.drop_first() == events.drop_first());
        assert(moved[0] == ((events[0].0 + extra) as u64, events[0].1));
    }
}

/// Merging keeps every event at its time: the moments of the merged list
/// are those of the two lists taken together, each as often as it occurs.
pub proof fn lemma_merged_moments<E>(left: Seq<(u64, E)>, right: Seq<(u64, E)>, origin: int)
    ensures
        moments(merged(left, right), origin).to_multiset() == moments(
            left,
            origin,
        ).to_multiset().add(moments(right, origin).to_multiset()),
    decreases left.len() + right.len(),
{
    let l = moments(left, origin);
    let r = moments(right, origin);
    let all = moments(merged(left, right), origin);
    if left.len() == 0 {
        vstd::seq_lib::lemma_multiset_commutative(l, r);
        assert(l + r == r);
    } else if right.len() == 0 {
        vstd::seq_lib::lemma_multiset_commutative(l, r);
        assert(l + r == l);
    } else if left[0].0 <= right[0].0 {
        let start = origin + left[0].0;
        let first = seq![(start, left[0].1)];
        let moved = late(right, -left[0].0);
        let rest = merged(left.drop_first(), moved);
        lemma_merged_moments(left.drop_first(), moved, start);
        lemma_late_moments(right, -left[0].0, start);
        assert(merged(left, right).drop_first() == rest);
        assert(all == first + moments(rest, start));
        assert(l == first + moments(left.drop_first(), start));
        vstd::seq_lib::lemma_multiset_commutative(first, moments(rest, start));
        vstd::seq_lib::lemma_multiset_commutative(first, moments(left.drop_first(), start));
        assert(all.to_multiset() =~= l.to_multiset().add(r.to_multiset()));
    } else {
        let start = origin + right[0].0;
        let first = seq![(start, right[0].1)];
        let moved = late(left, -right[0].0);
        let rest = merged(moved, right.drop_first());
        lemma_merged_moments(moved, right.drop_first(), start);
        lemma_late_moments(left, -right[0].0, start);
        assert(merged(left, right).drop_first() == rest);
        assert(all == first + moments(rest, start));
        assert(r == first + moments(right.drop_first(), start));
        vstd::seq_lib::lemma_multiset_commutative(first, moments(rest, start));
        vstd::seq_lib::lemma_multiset_commutative(first, moments(right.drop_first(), start));
        assert(all.to_multiset() =~= l.to_multiset().add(r.to_multiset()));
    }
}

} // verus!
