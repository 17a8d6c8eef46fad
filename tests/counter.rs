use hetkmers::counter::{ApproximateCounter, CounterConfig, CounterError};
use hetkmers::keyset::KeySet;

fn counter(bits: u32, hashes: u32, expected: u64) -> ApproximateCounter {
    ApproximateCounter::new(CounterConfig {
        counter_bits: bits,
        hash_count: hashes,
        expected_items: expected,
    })
    .unwrap()
}

#[test]
fn estimate_never_decreases_across_insertions() {
    let mut c = counter(8, 3, 100);
    let mut last = c.estimate(42);
    for _ in 0..20 {
        let got = c.insert_and_get_count(42);
        assert!(got >= last);
        assert_eq!(got, c.estimate(42));
        last = got;
    }
}

#[test]
fn no_undercount_after_n_insertions() {
    let mut c = counter(16, 4, 50);
    for n in 1..=30u32 {
        c.insert_and_get_count(7);
        assert!(c.estimate(7) >= n);
    }
    for key in 0..200u64 {
        c.insert_and_get_count(key);
    }
    assert!(c.estimate(7) >= 31);
}

#[test]
fn counts_are_exact_without_collisions() {
    let mut c = counter(16, 4, 1000);
    for _ in 0..5 {
        c.insert_and_get_count(11);
    }
    for _ in 0..3 {
        c.insert_and_get_count(12);
    }
    assert_eq!(c.estimate(11), 5);
    assert_eq!(c.estimate(12), 3);
    assert_eq!(c.estimate(13), 0);
}

#[test]
fn counters_saturate() {
    let mut c = counter(2, 3, 100);
    assert_eq!(c.max_count(), 3);
    for _ in 0..10 {
        c.insert_and_get_count(5);
    }
    assert_eq!(c.estimate(5), 3);
    assert_eq!(counter(32, 1, 1).max_count(), u32::MAX);
}

#[test]
fn keys_with_equal_residues_do_not_share_every_slot() {
    // 1000 items and 3 hashes give 4329 slots.
    let mut c = counter(16, 3, 1000);
    for _ in 0..5 {
        c.insert_and_get_count(0);
    }
    assert_eq!(c.estimate(4329), 0);
    assert_eq!(c.estimate(0), 5);
}

#[test]
fn counter_config_errors() {
    let bad_bits = CounterConfig { counter_bits: 0, hash_count: 3, expected_items: 10 };
    assert_eq!(ApproximateCounter::new(bad_bits).err(), Some(CounterError::CounterBits));
    let wide_bits = CounterConfig { counter_bits: 33, hash_count: 3, expected_items: 10 };
    assert_eq!(ApproximateCounter::new(wide_bits).err(), Some(CounterError::CounterBits));
    let no_hash = CounterConfig { counter_bits: 8, hash_count: 0, expected_items: 10 };
    assert_eq!(ApproximateCounter::new(no_hash).err(), Some(CounterError::HashCount));
    let many_hash = CounterConfig { counter_bits: 8, hash_count: 33, expected_items: 10 };
    assert_eq!(ApproximateCounter::new(many_hash).err(), Some(CounterError::HashCount));
    let huge = CounterConfig { counter_bits: 8, hash_count: 32, expected_items: u64::MAX };
    assert_eq!(ApproximateCounter::new(huge).err(), Some(CounterError::Capacity));
}

#[test]
fn empty_expectation_still_gives_one_slot() {
    let mut c = counter(8, 2, 0);
    assert_eq!(c.insert_and_get_count(3), 1);
    assert_eq!(c.insert_and_get_count(9), 2);
}

#[test]
fn key_set_holds_each_key_once() {
    let mut s = KeySet::new();
    assert!(s.insert(5));
    assert!(s.insert(9));
    assert!(!s.insert(5));
    let mut v = s.to_vec();
    v.sort();
    assert_eq!(v, vec![5, 9]);
}
