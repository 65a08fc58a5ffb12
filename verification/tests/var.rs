use avril::basic::Pairs;
use avril::source::Source;
use avril::stream::Stream;
use avril::var::Var;

fn pairs<E>(items: Vec<(u64, E)>) -> Stream<Pairs<E>> {
    Stream::from_iter(items)
}

fn first<S: Source>(stream: &mut Stream<S>, count: usize) -> Vec<(u64, S::Event)> {
    let mut out = Vec::new();
    for _ in 0..count {
        match stream.next() {
            Some(pair) => out.push(pair),
            None => break,
        }
    }
    out
}

#[test]
fn constant_never_changes() {
    let v = Var::constant(7);
    assert_eq!(*v.as_value(), 7);
    assert_eq!(v.updates().into_vec(), vec![(0, 7)]);
}

#[test]
fn updates_prepends_the_present() {
    let v = Var::from_updates("v0", pairs(vec![(3, "v1")]));
    assert_eq!(v.updates().into_vec(), vec![(0, "v0"), (3, "v1")]);
}

#[test]
fn map_transforms_present_and_future() {
    let v = Var::from_updates(1, pairs(vec![(3, 2), (4, 3)])).map(|x: i32| x * 2);
    assert_eq!(*v.as_value(), 2);
    assert_eq!(v.updates().into_vec(), vec![(0, 2), (3, 4), (4, 6)]);
}

#[test]
fn var_repeat_every_keeps_the_present() {
    let v = Var::from_updates('a', pairs(vec![(2, 'b'), (5, 'c')])).repeat_every(4);
    assert_eq!(*v.as_value(), 'a');
    let mut future = v.future;
    assert_eq!(
        first(&mut future, 5),
        vec![(0, 'a'), (2, 'b'), (2, 'a'), (2, 'b'), (2, 'a')]
    );
}

#[test]
fn sequence_switches_at_each_replacement() {
    let v = Var::from_updates(
        pairs(vec![(1, "a1"), (1, "a2"), (5, "a3")]),
        pairs(vec![
            (3, pairs(vec![(0, "b1"), (4, "b2")])),
            (2, pairs(vec![(1, "c1"), (9, "c2")])),
        ]),
    );
    assert_eq!(
        v.sequence().into_vec(),
        vec![(1, "a1"), (1, "a2"), (1, "b1"), (3, "c1"), (9, "c2")]
    );
}

#[test]
fn sequence_carries_the_silence_of_an_empty_stream() {
    let v = Var::from_updates(
        pairs(vec![(1, 'a')]),
        pairs(vec![(4, pairs(vec![])), (5, pairs(vec![(2, 'c')]))]),
    );
    assert_eq!(v.sequence().into_vec(), vec![(1, 'a'), (10, 'c')]);
}

#[test]
fn sequence_without_replacement_is_the_present_stream() {
    let v = Var::from_updates(
        pairs(vec![(1, 'a'), (7, 'b')]),
        pairs(Vec::<(u64, Stream<Pairs<char>>)>::new()),
    );
    assert_eq!(v.sequence().into_vec(), vec![(1, 'a'), (7, 'b')]);
}

#[test]
fn sequence_of_vars_flattens_to_a_var() {
    let inner0 = Var::from_updates(1, pairs(vec![(2, 2), (2, 3), (2, 4)]));
    let inner1 = Var::from_updates(10, pairs(vec![(1, 11)]));
    let inner2 = Var::from_updates(20, pairs(vec![]));
    let outer = Var::from_updates(inner0, pairs(vec![(5, inner1), (3, inner2)]));
    let flat = outer.sequence();
    assert_eq!(*flat.as_value(), 1);
    assert_eq!(
        flat.future.into_vec(),
        vec![(2, 2), (2, 3), (1, 10), (1, 11), (2, 20)]
    );
}
