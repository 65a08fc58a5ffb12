use avril::seed::Seed;
use rand::RngCore;

fn fnv1a(mut hash: u64, bytes: &[u8]) -> u64 {
    for byte in bytes {
        hash ^= *byte as u64;
        hash = hash.wrapping_mul(0x100000001b3);
    }
    hash
}

#[test]
fn fork_is_deterministic() {
    let parent = Seed::new(b"frosted glass");
    let x1 = parent.fork(b"x");
    let x2 = parent.fork(b"x");
    let y = parent.fork(b"y");
    assert_eq!(x1.state, x2.state);
    assert_ne!(x1.state, y.state);
}

#[test]
fn fork_hashes_the_delimiter_then_the_label() {
    let delimiter = 0xe16013eafc14eeedu64.to_le_bytes();
    let parent = Seed { state: 42 };
    let child = parent.fork(b"notes");
    assert_eq!(child.state, fnv1a(fnv1a(42, &delimiter), b"notes"));
    assert_ne!(child.state, 42);
}

#[test]
fn new_forks_the_zero_seed() {
    let delimiter = 0xe16013eafc14eeedu64.to_le_bytes();
    assert_eq!(Seed::new(b"a").state, fnv1a(fnv1a(0, &delimiter), b"a"));
    assert_eq!(Seed::new(b"a").state, Seed { state: 0 }.fork(b"a").state);
}

#[test]
fn fork_of_the_empty_label_differs_from_the_parent() {
    let parent = Seed { state: 7 };
    assert_eq!(parent.fork(b"").state, parent.rng_key());
    assert_ne!(parent.fork(b"").state, 7);
}

#[test]
fn rng_key_is_a_known_value() {
    let delimiter = 0xe16013eafc14eeedu64.to_le_bytes();
    assert_eq!(Seed { state: 0 }.rng_key(), fnv1a(0, &delimiter));
    assert_ne!(Seed { state: 0 }.rng_key(), 0);
}

#[test]
fn rng_is_reproducible() {
    let mut a = Seed::new(b"delta").rng();
    let mut b = Seed::new(b"delta").rng();
    for _ in 0..8 {
        assert_eq!(a.next_u64(), b.next_u64());
    }
}
