use recsys_proxy_cache::cache::{LfuCache, Score};
use recsys_proxy_cache::fingerprint::{Context, Field, Item, NormalizedContext};
use recsys_proxy_cache::resolver::{resolve, ScoreError, ScoreOutcome, Scorer};

fn field(name: &str, value: &str) -> Field {
    Field { name: name.as_bytes().to_vec(), value: value.as_bytes().to_vec() }
}

fn item(id: &str) -> Item {
    Item { id: id.as_bytes().to_vec() }
}

/// Hands out a fresh value on every call: deliberately not a function of its
/// arguments, so any repeated score must have come from the cache.
struct CountingScorer {
    calls: u64,
}

impl Scorer for CountingScorer {
    fn score(&mut self, _context: &NormalizedContext, _item: &Item) -> Result<Score, ScoreError> {
        self.calls += 1;
        Ok(Score { bits: 1000 + self.calls })
    }
}

/// Fails for one designated item identifier, scores everything else.
struct FailingScorer {
    bad_id: Vec<u8>,
    calls: u64,
}

impl Scorer for FailingScorer {
    fn score(&mut self, _context: &NormalizedContext, item: &Item) -> Result<Score, ScoreError> {
        self.calls += 1;
        if item.id == self.bad_id {
            Err(ScoreError {})
        } else {
            Ok(Score { bits: item.id[0] as u64 })
        }
    }
}

#[test]
fn one_outcome_per_item_in_order() {
    let mut cache = LfuCache::with_capacity(8).unwrap();
    let mut scorer = FailingScorer { bad_id: b"none".to_vec(), calls: 0 };
    let items = vec![item("b"), item("a"), item("c")];
    let out = resolve(&mut cache, &mut scorer, Context { fields: vec![] }, &items);
    assert_eq!(
        out,
        vec![
            ScoreOutcome::Scored(Score { bits: b'b' as u64 }),
            ScoreOutcome::Scored(Score { bits: b'a' as u64 }),
            ScoreOutcome::Scored(Score { bits: b'c' as u64 }),
        ]
    );
}

#[test]
fn second_resolution_returns_the_same_scores() {
    // The scorer never repeats a value, so equal results on the second call
    // prove every item was served from the cache.
    let mut cache = LfuCache::with_capacity(8).unwrap();
    let mut scorer = CountingScorer { calls: 0 };
    let make_ctx = || Context { fields: vec![field("user", "u1")] };
    let items = vec![item("m1"), item("m2"), item("m3")];
    let first = resolve(&mut cache, &mut scorer, make_ctx(), &items);
    assert_eq!(scorer.calls, 3);
    let second = resolve(&mut cache, &mut scorer, make_ctx(), &items);
    assert_eq!(second, first);
    assert_eq!(scorer.calls, 3);
}

#[test]
fn permuted_context_still_hits_the_cache() {
    let mut cache = LfuCache::with_capacity(8).unwrap();
    let mut scorer = CountingScorer { calls: 0 };
    let c1 = Context { fields: vec![field("a", "1"), field("b", "2")] };
    let c2 = Context { fields: vec![field("b", "2"), field("a", "1")] };
    let items = vec![item("m1")];
    let first = resolve(&mut cache, &mut scorer, c1, &items);
    let second = resolve(&mut cache, &mut scorer, c2, &items);
    assert_eq!(second, first);
    assert_eq!(scorer.calls, 1);
}

#[test]
fn scoring_failure_is_per_item_and_not_cached() {
    let mut cache = LfuCache::with_capacity(8).unwrap();
    let mut scorer = FailingScorer { bad_id: b"bad".to_vec(), calls: 0 };
    let items = vec![item("good"), item("bad"), item("also")];
    let out = resolve(&mut cache, &mut scorer, Context { fields: vec![] }, &items);
    assert_eq!(out.len(), 3);
    assert_eq!(out[0], ScoreOutcome::Scored(Score { bits: b'g' as u64 }));
    assert_eq!(out[1], ScoreOutcome::Failed);
    assert_eq!(out[2], ScoreOutcome::Scored(Score { bits: b'a' as u64 }));
    assert_eq!(scorer.calls, 3);
    // The failure was not cached: the bad item is scored again next time.
    let out2 = resolve(&mut cache, &mut scorer, Context { fields: vec![] }, &items);
    assert_eq!(scorer.calls, 4);
    assert_eq!(out2[1], ScoreOutcome::Failed);
    assert_eq!(out2[0], out[0]);
    assert_eq!(out2[2], out[2]);
}

#[test]
fn duplicate_items_in_one_batch_are_scored_once() {
    let mut cache = LfuCache::with_capacity(8).unwrap();
    let mut scorer = CountingScorer { calls: 0 };
    let items = vec![item("m1"), item("m1")];
    let out = resolve(&mut cache, &mut scorer, Context { fields: vec![] }, &items);
    assert_eq!(scorer.calls, 1);
    assert_eq!(out[0], out[1]);
}

#[test]
fn batch_larger_than_capacity_still_scores_every_item() {
    let mut cache = LfuCache::with_capacity(1).unwrap();
    let mut scorer = CountingScorer { calls: 0 };
    let items = vec![item("m1"), item("m2")];
    let out = resolve(&mut cache, &mut scorer, Context { fields: vec![] }, &items);
    assert_eq!(
        out,
        vec![
            ScoreOutcome::Scored(Score { bits: 1001 }),
            ScoreOutcome::Scored(Score { bits: 1002 }),
        ]
    );
    assert_eq!(cache.size(), 1);
    // The first item's entry was evicted by the second insertion, so a
    // second pass has to score both items afresh.
    let out2 = resolve(&mut cache, &mut scorer, Context { fields: vec![] }, &items);
    assert_eq!(
        out2,
        vec![
            ScoreOutcome::Scored(Score { bits: 1003 }),
            ScoreOutcome::Scored(Score { bits: 1004 }),
        ]
    );
    assert_eq!(scorer.calls, 4);
}

#[test]
fn resolution_with_empty_item_list_does_nothing() {
    let mut cache = LfuCache::with_capacity(8).unwrap();
    let mut scorer = CountingScorer { calls: 0 };
    let items: Vec<Item> = vec![];
    let out = resolve(&mut cache, &mut scorer, Context { fields: vec![] }, &items);
    assert!(out.is_empty());
    assert_eq!(scorer.calls, 0);
    assert_eq!(cache.size(), 0);
}
