use recsys_proxy_cache::cache::{CacheError, LfuCache, Score};
use recsys_proxy_cache::fingerprint::Fingerprint;

fn key(v: u64) -> Fingerprint {
    Fingerprint { value: v }
}

fn score(bits: u64) -> Score {
    Score { bits }
}

#[test]
fn zero_capacity_is_rejected() {
    let r = LfuCache::with_capacity(0);
    assert!(matches!(r, Err(CacheError::InvalidCapacity)));
}

#[test]
fn new_cache_is_empty() {
    let c = LfuCache::with_capacity(4).unwrap();
    assert_eq!(c.size(), 0);
    assert_eq!(c.capacity(), 4);
}

#[test]
fn put_then_get_returns_value() {
    let mut c = LfuCache::with_capacity(4).unwrap();
    c.put(key(1), score(100));
    assert_eq!(c.get(key(1)), Some(score(100)));
    assert_eq!(c.get(key(1)), Some(score(100)));
}

#[test]
fn overwrite_returns_new_value() {
    let mut c = LfuCache::with_capacity(4).unwrap();
    c.put(key(1), score(100));
    c.put(key(1), score(200));
    assert_eq!(c.get(key(1)), Some(score(200)));
    assert_eq!(c.size(), 1);
}

#[test]
fn miss_returns_none() {
    let mut c = LfuCache::with_capacity(4).unwrap();
    c.put(key(1), score(100));
    assert_eq!(c.get(key(2)), None);
}

#[test]
fn float_scores_round_trip_through_bits() {
    let mut c = LfuCache::with_capacity(2).unwrap();
    let s = 3.25f64;
    c.put(key(9), score(s.to_bits()));
    let got = c.get(key(9)).unwrap();
    assert_eq!(f64::from_bits(got.bits), 3.25f64);
}

#[test]
fn size_never_exceeds_capacity() {
    let mut c = LfuCache::with_capacity(3).unwrap();
    for v in 0..10u64 {
        c.put(key(v), score(v));
        assert!(c.size() <= c.capacity());
    }
    assert_eq!(c.size(), 3);
}

#[test]
fn eviction_removes_first_inserted_when_never_read() {
    let mut c = LfuCache::with_capacity(3).unwrap();
    c.put(key(1), score(10));
    c.put(key(2), score(20));
    c.put(key(3), score(30));
    c.put(key(4), score(40));
    assert_eq!(c.get(key(1)), None);
    assert_eq!(c.get(key(2)), Some(score(20)));
    assert_eq!(c.get(key(3)), Some(score(30)));
    assert_eq!(c.get(key(4)), Some(score(40)));
    assert_eq!(c.size(), 3);
}

#[test]
fn lfu_prefers_keeping_more_read_entries() {
    let mut c = LfuCache::with_capacity(2).unwrap();
    c.put(key(1), score(10));
    c.put(key(2), score(20));
    // key 1 read twice more, key 2 never: key 2 has the lower frequency.
    assert_eq!(c.get(key(1)), Some(score(10)));
    assert_eq!(c.get(key(1)), Some(score(10)));
    c.put(key(3), score(30));
    assert_eq!(c.get(key(2)), None);
    assert_eq!(c.get(key(1)), Some(score(10)));
    assert_eq!(c.get(key(3)), Some(score(30)));
}

#[test]
fn overwrite_counts_as_an_access() {
    let mut c = LfuCache::with_capacity(2).unwrap();
    c.put(key(1), score(10));
    c.put(key(2), score(20));
    // Overwriting key 1 bumps its frequency to 2; key 2 stays at 1.
    c.put(key(1), score(11));
    c.put(key(3), score(30));
    assert_eq!(c.get(key(2)), None);
    assert_eq!(c.get(key(1)), Some(score(11)));
    assert_eq!(c.get(key(3)), Some(score(30)));
}

#[test]
fn capacity_two_scenario_keeps_read_entry_and_newcomer() {
    // Insert a (freq 1) and b (freq 1); read a once (freq 2); insert c:
    // b, the lowest-frequency entry, is evicted and {a, c} remain.
    let mut c = LfuCache::with_capacity(2).unwrap();
    let (a, b, nc) = (key(0xa), key(0xb), key(0xc));
    c.put(a, score(1));
    c.put(b, score(2));
    assert_eq!(c.get(a), Some(score(1)));
    c.put(nc, score(3));
    assert_eq!(c.size(), 2);
    assert_eq!(c.get(b), None);
    assert_eq!(c.get(a), Some(score(1)));
    assert_eq!(c.get(nc), Some(score(3)));
}

#[test]
fn equal_frequency_tie_breaks_by_age_after_reads() {
    let mut c = LfuCache::with_capacity(2).unwrap();
    c.put(key(1), score(10));
    c.put(key(2), score(20));
    // Both read once: equal frequency 2; key 1 is older, so it is evicted.
    assert_eq!(c.get(key(1)), Some(score(10)));
    assert_eq!(c.get(key(2)), Some(score(20)));
    c.put(key(3), score(30));
    assert_eq!(c.get(key(1)), None);
    assert_eq!(c.get(key(2)), Some(score(20)));
    assert_eq!(c.get(key(3)), Some(score(30)));
}
