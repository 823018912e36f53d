use respkv::cache::Cache;
use respkv::clock::{reading, Clock};

#[test]
fn test_insert_expirable() {
    let mut cache = Cache::new();
    let key = b"key".to_vec();
    let value = b"value".to_vec();
    let duration: u64 = 1000;
    let start = cache.now();
    let expiry_time = start + duration;
    cache.insert(key.clone(), value.clone(), Some(expiry_time));
    assert_eq!(cache.get_at(&key, start + duration / 2), Some(value));

    assert_eq!(cache.get_at(&key, start + duration + 1), None);
}

#[test]
fn insert_returns_the_entry_that_it_replaced() {
    let mut cache = Cache::new();
    assert_eq!(cache.insert(b"k".to_vec(), b"one".to_vec(), Some(5)), None);
    assert_eq!(
        cache.insert(b"k".to_vec(), b"two".to_vec(), None),
        Some((b"one".to_vec(), Some(5)))
    );
    assert_eq!(
        cache.insert(b"k".to_vec(), b"three".to_vec(), Some(9)),
        Some((b"two".to_vec(), None))
    );
    assert_eq!(cache.insert(b"other".to_vec(), b"x".to_vec(), None), None);
    assert_eq!(cache.get_at(&b"k".to_vec(), 0), Some(b"three".to_vec()));
    assert_eq!(cache.get_at(&b"other".to_vec(), 0), Some(b"x".to_vec()));
}

#[test]
fn insert_replaces_an_expired_entry_and_returns_it() {
    let mut cache = Cache::new();
    cache.insert(b"k".to_vec(), b"old".to_vec(), Some(0));
    assert_eq!(
        cache.insert(b"k".to_vec(), b"new".to_vec(), None),
        Some((b"old".to_vec(), Some(0)))
    );
    assert_eq!(cache.get_at(&b"k".to_vec(), u64::MAX), Some(b"new".to_vec()));
}

#[test]
fn get_finds_nothing_under_a_key_that_was_never_written() {
    let mut cache = Cache::new();
    assert_eq!(cache.get(&b"missing".to_vec()), None);
    assert_eq!(cache.get_at(&b"missing".to_vec(), 7), None);
    cache.insert(b"".to_vec(), b"empty key".to_vec(), None);
    assert_eq!(cache.get(&b"".to_vec()), Some(b"empty key".to_vec()));
}

#[test]
fn get_on_a_key_without_deadline_gives_the_same_value_twice() {
    let mut cache = Cache::new();
    cache.insert(b"k".to_vec(), b"v".to_vec(), None);
    let first = cache.get(&b"k".to_vec());
    let second = cache.get(&b"k".to_vec());
    assert_eq!(first, Some(b"v".to_vec()));
    assert_eq!(second, first);
    assert_eq!(cache.get_at(&b"k".to_vec(), u64::MAX), first);
}

#[test]
fn an_entry_lives_up_to_its_deadline_and_not_beyond() {
    let mut cache = Cache::new();
    cache.insert(b"k".to_vec(), b"v".to_vec(), Some(100));
    assert_eq!(cache.get_at(&b"k".to_vec(), 0), Some(b"v".to_vec()));
    assert_eq!(cache.get_at(&b"k".to_vec(), 99), Some(b"v".to_vec()));
    assert_eq!(cache.get_at(&b"k".to_vec(), 100), Some(b"v".to_vec()));
    assert_eq!(cache.get_at(&b"k".to_vec(), 101), None);
}

#[test]
fn a_lookup_past_the_deadline_removes_the_entry() {
    let mut cache = Cache::new();
    cache.insert(b"k".to_vec(), b"v".to_vec(), Some(100));
    cache.insert(b"stays".to_vec(), b"s".to_vec(), None);
    assert_eq!(cache.get_at(&b"k".to_vec(), 101), None);
    assert_eq!(cache.get_at(&b"k".to_vec(), 0), None);
    assert_eq!(cache.insert(b"k".to_vec(), b"again".to_vec(), None), None);
    assert_eq!(cache.get_at(&b"k".to_vec(), u64::MAX), Some(b"again".to_vec()));
    assert_eq!(cache.get_at(&b"stays".to_vec(), u64::MAX), Some(b"s".to_vec()));
}

#[test]
fn an_expired_entry_stays_until_it_is_looked_up() {
    let mut cache = Cache::new();
    cache.insert(b"a".to_vec(), b"1".to_vec(), Some(10));
    cache.insert(b"b".to_vec(), b"2".to_vec(), Some(10));
    assert_eq!(cache.get_at(&b"a".to_vec(), 11), None);
    assert_eq!(cache.get_at(&b"b".to_vec(), 10), Some(b"2".to_vec()));
}

#[test]
fn the_clock_does_not_run_backwards() {
    let clock = Clock::new();
    let first = clock.now();
    let second = clock.now();
    assert!(first <= second);
    assert!(second < 60_000);
}

#[test]
fn a_reading_is_the_count_of_milliseconds_held_at_the_end_of_the_clock() {
    assert_eq!(reading(0), 0);
    assert_eq!(reading(1500), 1500);
    assert_eq!(reading(u64::MAX as u128), u64::MAX);
    assert_eq!(reading(u64::MAX as u128 + 1), u64::MAX);
    assert_eq!(reading(u128::MAX), u64::MAX);
}
