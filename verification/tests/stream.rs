use avril::apply::Newest;
use avril::basic::{Pairs, Queue};
use avril::source::Source;
use avril::stream::Stream;
use std::cell::Cell;

fn pairs<E>(items: Vec<(u64, E)>) -> Stream<Pairs<E>> {
    Stream::from_iter(items)
}

fn first<S: Source>(stream: &mut Stream<S>, count: usize) -> Vec<(u64, S::Event)> {
    let mut out = Vec::new();
    for _ in 0..count {
        match stream.next() {
            Some(pair) => out.push(pair),
            None => break,
        }
    }
    out
}

#[test]
fn empty_has_no_event() {
    let mut s = Stream::<avril::basic::Empty<u8>>::empty();
    assert_eq!(s.next(), None);
    assert_eq!(s.next(), None);
}

#[test]
fn immediate_is_one_event_at_zero() {
    let mut s = Stream::immediate('a');
    assert_eq!(s.next(), Some((0, 'a')));
    assert_eq!(s.next(), None);
}

#[test]
fn from_iter_keeps_order_and_delays() {
    let s = pairs(vec![(3, 'a'), (0, 'b'), (7, 'c')]);
    assert_eq!(s.into_vec(), vec![(3, 'a'), (0, 'b'), (7, 'c')]);
}

#[test]
fn next_returns_none_for_ever_after_the_end() {
    let mut s = pairs(vec![(1, 'a')]);
    assert_eq!(s.next(), Some((1, 'a')));
    assert_eq!(s.next(), None);
    assert_eq!(s.next(), None);
}

#[test]
fn map_changes_values_only() {
    let s = pairs(vec![(3, 1u32), (4, 2)]).map(|x: u32| x * 10);
    assert_eq!(s.into_vec(), vec![(3, 10), (4, 20)]);
}

#[test]
fn flatten_gives_the_first_of_a_batch_its_delay() {
    let s = pairs(vec![(2, vec![1, 2, 3]), (3, vec![4])]).flatten();
    assert_eq!(s.into_vec(), vec![(2, 1), (0, 2), (0, 3), (3, 4)]);
}

#[test]
fn flatten_drops_an_empty_batch_with_its_delay() {
    let s = pairs(vec![(2, vec![1]), (5, vec![]), (3, vec![4])]).flatten();
    assert_eq!(s.into_vec(), vec![(2, 1), (3, 4)]);
}

#[test]
fn flatten_takes_queues_too() {
    let s = pairs(vec![(2, Queue::from_vec(vec!['a', 'b']))]).flatten();
    assert_eq!(s.into_vec(), vec![(2, 'a'), (0, 'b')]);
}

#[test]
fn flat_map_is_map_then_flatten() {
    let s = pairs(vec![(2, 2u8), (1, 0), (4, 1)]).flat_map(|n: u8| vec![n; n as usize]);
    assert_eq!(s.into_vec(), vec![(2, 2), (0, 2), (4, 1)]);
}

#[test]
fn chain_concatenates() {
    let s = pairs(vec![(1, 'a'), (2, 'b')]).chain(pairs(vec![(3, 'c')]));
    assert_eq!(s.into_vec(), vec![(1, 'a'), (2, 'b'), (3, 'c')]);
}

#[test]
fn chain_at_drops_the_event_that_crosses_the_boundary() {
    let s = pairs(vec![(5, "e1")]).chain_at(3, pairs(vec![(2, "o1"), (4, "o2")]));
    assert_eq!(s.into_vec(), vec![(5, "o1"), (4, "o2")]);
}

#[test]
fn chain_at_gives_the_leftover_to_the_first_event_of_other() {
    let s = pairs(vec![(1, 'a'), (1, 'b'), (5, 'c'), (0, 'd')])
        .chain_at(3, pairs(vec![(2, 'x'), (4, 'y')]));
    assert_eq!(s.into_vec(), vec![(1, 'a'), (1, 'b'), (3, 'x'), (4, 'y')]);
}

#[test]
fn chain_at_when_self_ends_early() {
    let s = pairs(vec![(1, 'a')]).chain_at(10, pairs(vec![(0, 'x'), (1, 'y')]));
    assert_eq!(s.into_vec(), vec![(1, 'a'), (9, 'x'), (1, 'y')]);
}

#[test]
fn chain_at_keeps_an_event_exactly_at_the_threshold() {
    let s = pairs(vec![(2, 'a'), (1, 'b')]).chain_at(3, pairs(vec![(1, 'x')]));
    assert_eq!(s.into_vec(), vec![(2, 'a'), (1, 'b'), (1, 'x')]);
}

#[test]
fn take_truncates_without_splitting() {
    let s = pairs(vec![(2, 'a'), (2, 'b'), (2, 'c')]).take(5);
    assert_eq!(s.into_vec(), vec![(2, 'a'), (2, 'b')]);
    let none = pairs(vec![(2, 'a')]).take(1);
    assert_eq!(none.into_vec(), vec![]);
    let all = pairs(vec![(2, 'a'), (0, 'b')]).take(2);
    assert_eq!(all.into_vec(), vec![(2, 'a'), (0, 'b')]);
}

#[test]
fn drop_reduces_the_first_surviving_delay() {
    let s = pairs(vec![(2, 'a'), (5, 'b'), (1, 'c')]).drop(3);
    assert_eq!(s.into_vec(), vec![(4, 'b'), (1, 'c')]);
    let at = pairs(vec![(3, 'a'), (1, 'b')]).drop(3);
    assert_eq!(at.into_vec(), vec![(0, 'a'), (1, 'b')]);
    let zero = pairs(vec![(3, 'a')]).drop(0);
    assert_eq!(zero.into_vec(), vec![(3, 'a')]);
    let beyond = pairs(vec![(3, 'a')]).drop(4);
    assert_eq!(beyond.into_vec(), vec![]);
}

fn absolute<E>(events: Vec<(u64, E)>, origin: u64) -> Vec<(u64, E)> {
    let mut now = origin;
    let mut out = Vec::new();
    for (d, e) in events {
        now += d;
        out.push((now, e));
    }
    out
}

#[test]
fn take_and_drop_complement_each_other() {
    let events = vec![(2, 'a'), (0, 'b'), (5, 'c'), (1, 'd'), (0, 'e'), (9, 'f')];
    for d in [0u64, 1, 3, 6, 9, 16, 18, 40] {
        let taken = pairs(events.clone()).take(d).into_vec();
        let dropped = pairs(events.clone()).drop(d).into_vec();
        let mut both = absolute(taken, 0);
        both.extend(absolute(dropped, d));
        assert_eq!(both, absolute(events.clone(), 0));
    }
}

#[test]
fn take_and_drop_share_an_event_at_the_boundary() {
    let events = vec![(3, 'a'), (2, 'b')];
    assert_eq!(pairs(events.clone()).take(3).into_vec(), vec![(3, 'a')]);
    assert_eq!(pairs(events).drop(3).into_vec(), vec![(0, 'a'), (2, 'b')]);
}

#[test]
fn delay_shifts_every_event() {
    let s = pairs(vec![(1, 'a'), (2, 'b')]).delay(10);
    assert_eq!(s.into_vec(), vec![(11, 'a'), (2, 'b')]);
}

#[test]
fn coalesce_folds_same_instant_runs() {
    let s = pairs(vec![(2, 1), (0, 2), (0, 3), (4, 9)]).coalesce(|a: i32, b: i32| a + b);
    assert_eq!(s.into_vec(), vec![(2, 6), (4, 9)]);
}

#[test]
fn coalesce_keeps_a_leading_zero_delay() {
    let s = pairs(vec![(0, 'a'), (0, 'b'), (1, 'c'), (0, 'd')]).coalesce(Newest);
    assert_eq!(s.into_vec(), vec![(0, 'b'), (1, 'd')]);
}

#[test]
fn coalesce_of_nothing_is_nothing() {
    let s = pairs(Vec::<(u64, u8)>::new()).coalesce(Newest);
    assert_eq!(s.into_vec(), vec![]);
}

#[test]
fn merge_is_a_stable_interleave() {
    let a = pairs(vec![(1, 'a'), (3, 'b')]);
    let b = pairs(vec![(2, 'x'), (1, 'y')]);
    assert_eq!(
        a.merge(b).into_vec(),
        vec![(1, 'a'), (1, 'x'), (1, 'y'), (1, 'b')]
    );
}

#[test]
fn merge_favours_the_left_on_ties() {
    let a = pairs(vec![(2, "l1"), (0, "l2"), (3, "l3")]);
    let b = pairs(vec![(2, "r1"), (3, "r2")]);
    assert_eq!(
        a.merge(b).into_vec(),
        vec![(2, "l1"), (0, "l2"), (0, "r1"), (3, "l3"), (0, "r2")]
    );
}

#[test]
fn merge_passes_the_rest_through() {
    let a = pairs(vec![(1, 'a')]);
    let b = pairs(vec![(4, 'x'), (5, 'y')]);
    assert_eq!(a.merge(b).into_vec(), vec![(1, 'a'), (3, 'x'), (5, 'y')]);
    let none = pairs(Vec::<(u64, char)>::new());
    let c = pairs(vec![(4, 'x')]);
    assert_eq!(none.merge(c).into_vec(), vec![(4, 'x')]);
}

#[test]
fn merge_all_folds_from_the_left() {
    let merged = Stream::merge_all(vec![
        pairs(vec![(2, "a1"), (2, "a2")]),
        pairs(vec![(2, "b1")]),
        pairs(vec![(1, "c1"), (1, "c2"), (5, "c3")]),
    ]);
    assert_eq!(
        merged.into_vec(),
        vec![
            (1, "c1"),
            (1, "a1"),
            (0, "b1"),
            (0, "c2"),
            (2, "a2"),
            (3, "c3")
        ]
    );
}

#[test]
fn merge_all_equals_nested_merges() {
    let make = || {
        vec![
            vec![(3, 1), (0, 2), (4, 3)],
            vec![(1, 10), (6, 20)],
            vec![(3, 100), (4, 200), (0, 300)],
            vec![(7, 1000)],
        ]
    };
    let all = Stream::merge_all(make().into_iter().map(pairs).collect()).into_vec();
    let mut lists = make().into_iter().map(pairs);
    let nested = lists
        .next()
        .unwrap()
        .merge(lists.next().unwrap())
        .merge(lists.next().unwrap())
        .merge(lists.next().unwrap())
        .into_vec();
    assert_eq!(all, nested);
}

#[test]
fn merge_all_of_none_and_of_one() {
    let none = Stream::merge_all(Vec::<Stream<Pairs<u8>>>::new());
    assert_eq!(none.into_vec(), vec![]);
    let one = Stream::merge_all(vec![pairs(vec![(4, 'a')])]);
    assert_eq!(one.into_vec(), vec![(4, 'a')]);
}

#[test]
fn lazy_builds_at_the_first_pull() {
    let built = Cell::new(false);
    let mut s = Stream::lazy(|| {
        built.set(true);
        pairs(vec![(1, 'a')])
    });
    assert!(!built.get());
    assert_eq!(s.next(), Some((1, 'a')));
    assert!(built.get());
    assert_eq!(s.next(), None);
}

#[test]
fn repeat_every_replays_the_snapshot() {
    let mut s = pairs(vec![(1, 'a'), (2, 'b'), (9, 'c')]).repeat_every(5);
    assert_eq!(
        first(&mut s, 6),
        vec![(1, 'a'), (2, 'b'), (3, 'a'), (2, 'b'), (3, 'a'), (2, 'b')]
    );
}

#[test]
fn repeat_every_is_periodic_over_a_thousand_periods() {
    let interval = 10u64;
    let sample = vec![(0, 'x'), (3, 'y'), (4, 'z')];
    let mut s = pairs(sample.clone()).repeat_every(interval);
    let period0 = absolute(sample, 0);
    let mut now = 0u64;
    for n in 0..1000u64 {
        for (offset, value) in &period0 {
            let (d, e) = s.next().unwrap();
            now += d;
            assert_eq!(e, *value);
            assert_eq!(now, n * interval + offset);
        }
    }
}

#[test]
fn repeat_every_of_an_endless_stream_reads_one_interval() {
    let endless = Stream::unfold(0u32, |n: u32| Some(((2u64, n), n + 1)));
    let mut s = endless.repeat_every(5);
    assert_eq!(
        first(&mut s, 5),
        vec![(2, 0), (2, 1), (3, 0), (2, 1), (3, 0)]
    );
}

#[test]
fn repeat_every_of_nothing_is_nothing() {
    let mut s = pairs(vec![(7, 'a')]).repeat_every(5);
    assert_eq!(s.next(), None);
}

#[test]
fn unfold_computes_on_demand() {
    let calls = Cell::new(0u32);
    let mut s = Stream::unfold(1u64, |n: u64| {
        calls.set(calls.get() + 1);
        if n > 4 {
            None
        } else {
            Some(((n, n * n), n + 1))
        }
    });
    assert_eq!(calls.get(), 0);
    assert_eq!(s.next(), Some((1, 1)));
    assert_eq!(calls.get(), 1);
    assert_eq!(first(&mut s, 10), vec![(2, 4), (3, 9), (4, 16)]);
    assert_eq!(s.next(), None);
}

#[test]
fn combinators_work_on_endless_streams() {
    let ticks = Stream::unfold(0u64, |n: u64| Some(((3u64, n), n + 1)));
    let tocks = Stream::unfold(0u64, |n: u64| Some(((5u64, 100 + n), n + 1)));
    let s = ticks.merge(tocks).drop(4).map(|v: u64| v + 1).take(12);
    assert_eq!(
        s.into_vec(),
        vec![(1, 101), (1, 2), (3, 3), (1, 102), (2, 4), (3, 5), (0, 103)]
    );
}

#[test]
fn replay_every_starts_a_round_every_interval() {
    let mut s = Stream::replay_every(vec![(1, 'a'), (2, 'b')], 10);
    assert_eq!(
        first(&mut s, 5),
        vec![(1, 'a'), (2, 'b'), (8, 'a'), (2, 'b'), (8, 'a')]
    );
    let mut none = Stream::replay_every(Vec::<(u64, char)>::new(), 10);
    assert_eq!(none.next(), None);
}
