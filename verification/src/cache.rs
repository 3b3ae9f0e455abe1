//! Bounded score store with least-frequently-used eviction.
//!
//! The cache is modelled as a sequence of entries held in insertion order
//! (oldest first).  A lookup bumps the hit entry's access-frequency counter;
//! an insertion beyond capacity evicts the entry with the lowest frequency,
//! ties broken in favour of the oldest-resident entry.

use vstd::prelude::*;
use vstd::pervasive::VecAdditionalExecFns;

use crate::fingerprint::Fingerprint;

verus! {

/// A score produced by the external scoring collaborator, carried as the raw
/// bit pattern of its floating-point representation.  The cache never
/// inspects the numeric value; it only stores and returns it.
#[derive(Clone, Copy, PartialEq, Eq, Structural, Debug)]
pub struct Score {
    pub bits: u64,
}

/// One resident cache entry: a fingerprint, its cached score, and the
/// access-frequency counter driving eviction.
#[derive(Clone, Copy, PartialEq, Eq, Structural, Debug)]
pub struct CacheEntry {
    pub key: Fingerprint,
    pub score: Score,
    pub freq: u64,
}

/// Rejected cache configuration.
#[derive(Clone, Copy, PartialEq, Eq, Structural, Debug)]
pub enum CacheError {
    InvalidCapacity,
}

/// No two entries share a fingerprint.
pub open spec fn distinct_keys(s: Seq<CacheEntry>) -> bool {
    forall|i: int, j: int|
        0 <= i < j < s.len() ==> (#[trigger] s[i]).key != (#[trigger] s[j]).key
}

/// Some entry carries the given fingerprint.
pub open spec fn has_key(s: Seq<CacheEntry>, k: Fingerprint) -> bool {
    exists|i: int| 0 <= i < s.len() && (#[trigger] s[i]).key == k
}

/// The position of the entry carrying the given fingerprint (unique when the
/// keys are distinct).
pub open spec fn idx_of(s: Seq<CacheEntry>, k: Fingerprint) -> int {
    choose|i: int| 0 <= i < s.len() && (#[trigger] s[i]).key == k
}

/// The score cached under the given fingerprint.
pub open spec fn score_of(s: Seq<CacheEntry>, k: Fingerprint) -> Score {
    s[idx_of(s, k)].score
}

/// The access-frequency counter of the entry under the given fingerprint.
pub open spec fn freq_of(s: Seq<CacheEntry>, k: Fingerprint) -> u64 {
    s[idx_of(s, k)].freq
}

/// One further access: the counter grows by one, saturating at the
/// representation limit so that it is monotonically non-decreasing.
pub open spec fn bump(f: u64) -> u64 {
    if f < u64::MAX {
        (f + 1) as u64
    } else {
        f
    }
}

/// Entry `i` is the one eviction removes: no entry has a strictly smaller
/// frequency, and among entries of minimal frequency it is the oldest
/// (entries stand in insertion order, oldest first).
pub open spec fn is_victim(s: Seq<CacheEntry>, i: int) -> bool {
    &&& 0 <= i < s.len()
    &&& forall|j: int| 0 <= j < s.len() ==> s[i].freq <= (#[trigger] s[j]).freq
    &&& forall|j: int| 0 <= j < i ==> (#[trigger] s[j]).freq > s[i].freq
}

/// The position eviction removes.
pub open spec fn victim_idx(s: Seq<CacheEntry>) -> int {
    choose|i: int| is_victim(s, i)
}

/// Effect of a lookup on the entries: a hit bumps the entry's frequency and
/// changes nothing else; a miss changes nothing.
pub open spec fn model_get(s: Seq<CacheEntry>, k: Fingerprint) -> Seq<CacheEntry> {
    if has_key(s, k) {
        let i = idx_of(s, k);
        s.update(i, CacheEntry { key: s[i].key, score: s[i].score, freq: bump(s[i].freq) })
    } else {
        s
    }
}

/// Effect of an insertion on the entries.  Overwriting an existing entry
/// stores the new score and counts as one further access (the frequency is
/// never reset after creation).  A new entry starts at frequency 1 — the
/// insertion itself counts as an access — and is appended as the youngest;
/// at capacity the victim entry is evicted first.
pub open spec fn model_put(s: Seq<CacheEntry>, cap: nat, k: Fingerprint, v: Score) -> Seq<
    CacheEntry,
> {
    if has_key(s, k) {
        let i = idx_of(s, k);
        s.update(i, CacheEntry { key: k, score: v, freq: bump(s[i].freq) })
    } else if s.len() < cap {
        s.push(CacheEntry { key: k, score: v, freq: 1 })
    } else {
        s.remove(victim_idx(s)).push(CacheEntry { key: k, score: v, freq: 1 })
    }
}

/// With distinct keys, `idx_of` is the one position carrying the key.
pub proof fn lemma_idx_of(s: Seq<CacheEntry>, k: Fingerprint)
    requires
        distinct_keys(s),
        has_key(s, k),
    ensures
        0 <= idx_of(s, k) < s.len(),
        s[idx_of(s, k)].key == k,
        forall|j: int| 0 <= j < s.len() && (#[trigger] s[j]).key == k ==> j == idx_of(s, k),
{
    let i = idx_of(s, k);
    assert(0 <= i < s.len() && s[i].key == k);
    assert forall|j: int| 0 <= j < s.len() && (#[trigger] s[j]).key == k implies j == i by {
        if j < i {
            assert(s[j].key != s[i].key);
        } else if i < j {
            assert(s[i].key != s[j].key);
        }
    }
}

/// The eviction victim is uniquely determined.
pub proof fn lemma_victim_unique(s: Seq<CacheEntry>, i: int, j: int)
    requires
        is_victim(s, i),
        is_victim(s, j),
    ensures
        i == j,
{
    if i < j {
        assert(s[i].freq > s[j].freq);
        assert(s[j].freq <= s[i].freq);
    } else if j < i {
        assert(s[j].freq > s[i].freq);
        assert(s[i].freq <= s[j].freq);
    }
}

/// A non-empty entry sequence has an eviction victim.
pub proof fn lemma_victim_exists(s: Seq<CacheEntry>)
    requires
        s.len() > 0,
    ensures
        is_victim(s, victim_idx(s)),
{
    let i = first_min_upto(s, s.len() as int);
    lemma_first_min_upto(s, s.len() as int);
    assert(is_victim(s, i));
    assert(is_victim(s, victim_idx(s)));
}

/// The first position of minimal frequency among the first `n` entries.
spec fn first_min_upto(s: Seq<CacheEntry>, n: int) -> int
    decreases n,
{
    if n <= 1 {
        0
    } else {
        let p = first_min_upto(s, n - 1);
        if s[n - 1].freq < s[p].freq {
            n - 1
        } else {
            p
        }
    }
}

proof fn lemma_first_min_upto(s: Seq<CacheEntry>, n: int)
    requires
        1 <= n <= s.len(),
    ensures
        0 <= first_min_upto(s, n) < n,
        forall|j: int| 0 <= j < n ==> s[first_min_upto(s, n)].freq <= (#[trigger] s[j]).freq,
        forall|j: int|
            0 <= j < first_min_upto(s, n) ==> (#[trigger] s[j]).freq > s[first_min_upto(
                s,
                n,
            )].freq,
    decreases n,
{
    if n > 1 {
        lemma_first_min_upto(s, n - 1);
    }
}

/// A lookup never changes which keys are resident nor which score any of
/// them carries; it only bumps the hit entry's frequency.
pub proof fn lemma_get_preserves(s: Seq<CacheEntry>, k: Fingerprint)
    requires
        distinct_keys(s),
    ensures
        model_get(s, k).len() == s.len(),
        distinct_keys(model_get(s, k)),
        forall|k2: Fingerprint| has_key(model_get(s, k), k2) == has_key(s, k2),
        forall|k2: Fingerprint|
            has_key(s, k2) ==> #[trigger] score_of(model_get(s, k), k2) == score_of(s, k2),
{
    if has_key(s, k) {
        lemma_idx_of(s, k);
        let i = idx_of(s, k);
        let t = model_get(s, k);
        assert(forall|j: int| 0 <= j < s.len() ==> (#[trigger] t[j]).key == s[j].key);
        assert forall|k2: Fingerprint| has_key(t, k2) == has_key(s, k2) by {
            if has_key(s, k2) {
                let j = idx_of(s, k2);
                assert(t[j].key == k2);
            }
            if has_key(t, k2) {
                let j = choose|j: int| 0 <= j < t.len() && (#[trigger] t[j]).key == k2;
                assert(s[j].key == k2);
            }
        }
        assert forall|k2: Fingerprint| has_key(s, k2) implies #[trigger] score_of(t, k2)
            == score_of(s, k2) by {
            lemma_idx_of(s, k2);
            lemma_idx_of(t, k2);
            let j = idx_of(s, k2);
            assert(t[j].key == k2);
            assert(idx_of(t, k2) == j);
            assert(t[j].score == s[j].score);
        }
    } else {
        assert(model_get(s, k) == s);
    }
}

/// Once a score has been stored under a key, it is what the key maps to, and
/// every other key that remains resident keeps the score it had — until the
/// key is itself overwritten or evicted.
pub proof fn lemma_put_then_get(s: Seq<CacheEntry>, cap: nat, k: Fingerprint, v: Score)
    requires
        distinct_keys(s),
        s.len() <= cap,
        cap >= 1,
    ensures
        has_key(model_put(s, cap, k, v), k),
        score_of(model_put(s, cap, k, v), k) == v,
        distinct_keys(model_put(s, cap, k, v)),
        forall|k2: Fingerprint|
            k2 != k && #[trigger] has_key(model_put(s, cap, k, v), k2) ==> has_key(s, k2)
                && score_of(model_put(s, cap, k, v), k2) == score_of(s, k2),
{
    let t = model_put(s, cap, k, v);
    if has_key(s, k) {
        lemma_idx_of(s, k);
        let i = idx_of(s, k);
        assert(forall|j: int| 0 <= j < s.len() && j != i ==> t[j] == s[j]);
        assert(t[i].key == k && t[i].score == v);
        lemma_keys_preserved_pointwise(s, t);
        lemma_idx_of(t, k);
        assert(score_of(t, k) == v);
        assert forall|k2: Fingerprint|
            k2 != k && #[trigger] has_key(t, k2) implies has_key(s, k2) && score_of(t, k2)
            == score_of(s, k2) by {
            let j = choose|j: int| 0 <= j < t.len() && (#[trigger] t[j]).key == k2;
            assert(s[j].key == k2);
            lemma_idx_of(s, k2);
            lemma_idx_of(t, k2);
            assert(t[j].score == s[j].score);
        }
    } else if s.len() < cap {
        let n = s.len() as int;
        assert(t[n].key == k && t[n].score == v);
        assert(distinct_keys(t)) by {
            assert forall|a: int, b: int|
                0 <= a < b < t.len() implies (#[trigger] t[a]).key != (#[trigger] t[b]).key by {
                if b < n {
                    assert(s[a].key != s[b].key);
                } else {
                    assert(t[a] == s[a]);
                }
            }
        }
        lemma_idx_of(t, k);
        assert forall|k2: Fingerprint|
            k2 != k && #[trigger] has_key(t, k2) implies has_key(s, k2) && score_of(t, k2)
            == score_of(s, k2) by {
            let j = choose|j: int| 0 <= j < t.len() && (#[trigger] t[j]).key == k2;
            assert(j < n);
            assert(s[j].key == k2);
            lemma_idx_of(s, k2);
            lemma_idx_of(t, k2);
            assert(t[j] == s[j]);
        }
    } else {
        lemma_victim_exists(s);
        let m = victim_idx(s);
        let u = s.remove(m);
        let n = u.len() as int;
        assert(t == u.push(CacheEntry { key: k, score: v, freq: 1 }));
        assert(forall|j: int| 0 <= j < m ==> u[j] == s[j]);
        assert(forall|j: int| m <= j < u.len() ==> u[j] == s[j + 1]);
        assert(distinct_keys(t)) by {
            assert forall|a: int, b: int|
                0 <= a < b < t.len() implies (#[trigger] t[a]).key != (#[trigger] t[b]).key by {
                if b < n {
                    if a < m && b < m {
                        assert(u[a] == s[a] && u[b] == s[b]);
                    } else if a < m {
                        assert(u[a] == s[a] && u[b] == s[b + 1]);
                    } else {
                        assert(u[a] == s[a + 1] && u[b] == s[b + 1]);
                    }
                } else {
                    assert(t[b].key == k);
                    if a < m {
                        assert(t[a] == s[a]);
                    } else {
                        assert(t[a] == s[a + 1]);
                    }
                }
            }
        }
        assert(t[n].key == k && t[n].score == v);
        lemma_idx_of(t, k);
        assert forall|k2: Fingerprint|
            k2 != k && #[trigger] has_key(t, k2) implies has_key(s, k2) && score_of(t, k2)
            == score_of(s, k2) by {
            let j = choose|j: int| 0 <= j < t.len() && (#[trigger] t[j]).key == k2;
            assert(j < n);
            let j0: int = if j < m {
                j
            } else {
                j + 1
            };
            assert(s[j0].key == k2);
            lemma_idx_of(s, k2);
            lemma_idx_of(t, k2);
            assert(t[j] == s[j0]);
        }
    }
}

/// Two entry sequences whose entries carry the same keys position by
/// position hold the same key set.
proof fn lemma_keys_preserved_pointwise(s: Seq<CacheEntry>, t: Seq<CacheEntry>)
    requires
        s.len() == t.len(),
        forall|j: int| 0 <= j < s.len() ==> (#[trigger] t[j]).key == (#[trigger] s[j]).key,
    ensures
        forall|k2: Fingerprint| has_key(t, k2) == has_key(s, k2),
        distinct_keys(s) ==> distinct_keys(t),
{
    assert forall|k2: Fingerprint| has_key(t, k2) == has_key(s, k2) by {
        if has_key(s, k2) {
            let j = choose|j: int| 0 <= j < s.len() && (#[trigger] s[j]).key == k2;
            assert(t[j].key == k2);
        }
        if has_key(t, k2) {
            let j = choose|j: int| 0 <= j < t.len() && (#[trigger] t[j]).key == k2;
            assert(s[j].key == k2);
        }
    }
    if distinct_keys(s) {
        assert forall|a: int, b: int|
            0 <= a < b < t.len() implies (#[trigger] t[a]).key != (#[trigger] t[b]).key by {
            assert(s[a].key != s[b].key);
        }
    }
}

/// Inserting a fresh key below capacity evicts nothing: every resident
/// entry stays, with its score, and the new key joins with the given score.
pub proof fn lemma_put_fresh_preserves(s: Seq<CacheEntry>, cap: nat, k: Fingerprint, v: Score)
    requires
        distinct_keys(s),
        !has_key(s, k),
        s.len() < cap,
    ensures
        model_put(s, cap, k, v) == s.push(CacheEntry { key: k, score: v, freq: 1 }),
        distinct_keys(model_put(s, cap, k, v)),
        model_put(s, cap, k, v).len() == s.len() + 1,
        has_key(model_put(s, cap, k, v), k),
        score_of(model_put(s, cap, k, v), k) == v,
        forall|k2: Fingerprint|
            #[trigger] has_key(s, k2) ==> has_key(model_put(s, cap, k, v), k2) && score_of(
                model_put(s, cap, k, v),
                k2,
            ) == score_of(s, k2),
{
    let t = model_put(s, cap, k, v);
    let n = s.len() as int;
    assert(t[n].key == k && t[n].score == v);
    assert(distinct_keys(t)) by {
        assert forall|a: int, b: int|
            0 <= a < b < t.len() implies (#[trigger] t[a]).key != (#[trigger] t[b]).key by {
            if b < n {
                assert(s[a].key != s[b].key);
            } else {
                assert(t[a] == s[a]);
            }
        }
    }
    lemma_idx_of(t, k);
    assert forall|k2: Fingerprint| #[trigger] has_key(s, k2) implies has_key(t, k2) && score_of(
        t,
        k2,
    ) == score_of(s, k2) by {
        lemma_idx_of(s, k2);
        let j = idx_of(s, k2);
        assert(t[j].key == k2);
        lemma_idx_of(t, k2);
        assert(t[j] == s[j]);
    }
}

/// Eviction order: when every resident entry has been accessed equally
/// often, an insertion beyond capacity evicts the oldest-resident entry —
/// with entries inserted one by one and never re-read, that is the
/// first-inserted key.
pub proof fn lemma_evicts_oldest_on_equal_freqs(
    s: Seq<CacheEntry>,
    cap: nat,
    k: Fingerprint,
    v: Score,
)
    requires
        distinct_keys(s),
        s.len() == cap,
        cap >= 1,
        !has_key(s, k),
        forall|i: int| 0 <= i < s.len() ==> (#[trigger] s[i]).freq == s[0].freq,
    ensures
        model_put(s, cap, k, v) == s.remove(0).push(CacheEntry { key: k, score: v, freq: 1 }),
        !has_key(model_put(s, cap, k, v), s[0].key),
        forall|j: int| 1 <= j < s.len() ==> has_key(model_put(s, cap, k, v), (#[trigger] s[j]).key),
{
    assert(is_victim(s, 0));
    lemma_victim_exists(s);
    lemma_victim_unique(s, 0, victim_idx(s));
    let t = model_put(s, cap, k, v);
    let u = s.remove(0);
    assert(t =~= u.push(CacheEntry { key: k, score: v, freq: 1 }));
    assert(forall|j: int| 0 <= j < u.len() ==> u[j] == s[j + 1]);
    assert(!has_key(t, s[0].key)) by {
        if has_key(t, s[0].key) {
            let j = choose|j: int| 0 <= j < t.len() && (#[trigger] t[j]).key == s[0].key;
            if j < u.len() {
                assert(s[j + 1].key == s[0].key);
            } else {
                assert(t[j].key == k);
                assert(s[0].key == k);
            }
        }
    }
    assert forall|j: int| 1 <= j < s.len() implies has_key(t, (#[trigger] s[j]).key) by {
        assert(t[j - 1] == s[j]);
    }
}

/// The entries after a sequence of insertions into an initially empty
/// cache: key `ks[i]` inserted with score `vs[i]`, in index order, and
/// never read in between.
pub open spec fn fill_model(cap: nat, ks: Seq<Fingerprint>, vs: Seq<Score>) -> Seq<CacheEntry>
    decreases ks.len(),
{
    if ks.len() == 0 {
        Seq::<CacheEntry>::empty()
    } else {
        model_put(fill_model(cap, ks.drop_last(), vs.drop_last()), cap, ks.last(), vs.last())
    }
}

/// Inserting distinct keys into an empty cache with room for all of them
/// evicts nothing: the entries stand in insertion order, each with its own
/// score and at frequency 1.
pub proof fn lemma_fill_model(cap: nat, ks: Seq<Fingerprint>, vs: Seq<Score>)
    requires
        ks.len() == vs.len(),
        ks.len() <= cap,
        forall|i: int, j: int| 0 <= i < j < ks.len() ==> ks[i] != ks[j],
    ensures
        fill_model(cap, ks, vs).len() == ks.len(),
        forall|i: int|
            0 <= i < ks.len() ==> #[trigger] fill_model(cap, ks, vs)[i] == (CacheEntry {
                key: ks[i],
                score: vs[i],
                freq: 1,
            }),
    decreases ks.len(),
{
    if ks.len() > 0 {
        let n = ks.len() as int;
        lemma_fill_model(cap, ks.drop_last(), vs.drop_last());
        let prev = fill_model(cap, ks.drop_last(), vs.drop_last());
        assert(forall|i: int| 0 <= i < n - 1 ==> ks.drop_last()[i] == ks[i]);
        assert(forall|i: int| 0 <= i < n - 1 ==> vs.drop_last()[i] == vs[i]);
        assert(!has_key(prev, ks.last())) by {
            if has_key(prev, ks.last()) {
                let i = choose|i: int|
                    0 <= i < prev.len() && (#[trigger] prev[i]).key == ks.last();
                assert(prev[i] == (CacheEntry { key: ks[i], score: vs[i], freq: 1 }));
                assert(ks[i] == ks[n - 1]);
            }
        }
        assert(prev.len() < cap);
        assert(fill_model(cap, ks, vs) == prev.push(
            CacheEntry { key: ks.last(), score: vs.last(), freq: 1 },
        ));
    }
}

/// Eviction order, over a whole run of insertions: fill an empty cache to
/// capacity with distinct keys that are never read again, then insert one
/// more fresh key — the first-inserted key is the one evicted; every other
/// key, and the newcomer, is resident.
pub proof fn lemma_first_inserted_evicted(
    cap: nat,
    ks: Seq<Fingerprint>,
    vs: Seq<Score>,
    k: Fingerprint,
    v: Score,
)
    requires
        ks.len() == vs.len(),
        ks.len() == cap,
        cap >= 1,
        forall|i: int, j: int| 0 <= i < j < ks.len() ==> ks[i] != ks[j],
        forall|i: int| 0 <= i < ks.len() ==> ks[i] != k,
    ensures
        !has_key(model_put(fill_model(cap, ks, vs), cap, k, v), ks[0]),
        forall|j: int|
            1 <= j < ks.len() ==> has_key(model_put(fill_model(cap, ks, vs), cap, k, v), ks[j]),
        has_key(model_put(fill_model(cap, ks, vs), cap, k, v), k),
{
    lemma_fill_model(cap, ks, vs);
    let s = fill_model(cap, ks, vs);
    let n = s.len() as int;
    assert(distinct_keys(s)) by {
        assert forall|a: int, b: int|
            0 <= a < b < s.len() implies (#[trigger] s[a]).key != (#[trigger] s[b]).key by {
            assert(s[a].key == ks[a] && s[b].key == ks[b]);
        }
    }
    assert(!has_key(s, k)) by {
        if has_key(s, k) {
            let i = choose|i: int| 0 <= i < s.len() && (#[trigger] s[i]).key == k;
            assert(s[i].key == ks[i]);
        }
    }
    assert(forall|i: int| 0 <= i < s.len() ==> (#[trigger] s[i]).freq == s[0].freq);
    lemma_evicts_oldest_on_equal_freqs(s, cap, k, v);
    let t = model_put(s, cap, k, v);
    assert(s[0].key == ks[0]);
    assert forall|j: int| 1 <= j < ks.len() implies has_key(t, ks[j]) by {
        assert(s[j].key == ks[j]);
        assert(has_key(t, s[j].key));
    }
    assert(t == s.remove(0).push(CacheEntry { key: k, score: v, freq: 1 }));
    assert(t[n - 1].key == k);
}

/// LFU preference: an entry that has been accessed strictly more often than
/// some other resident entry is never the one an insertion evicts.
pub proof fn lemma_lfu_preference(
    s: Seq<CacheEntry>,
    cap: nat,
    k: Fingerprint,
    v: Score,
    a: Fingerprint,
    b: Fingerprint,
)
    requires
        distinct_keys(s),
        s.len() == cap,
        cap >= 1,
        !has_key(s, k),
        has_key(s, a),
        has_key(s, b),
        freq_of(s, a) > freq_of(s, b),
    ensures
        has_key(model_put(s, cap, k, v), a),
{
    lemma_victim_exists(s);
    let m = victim_idx(s);
    lemma_idx_of(s, a);
    lemma_idx_of(s, b);
    let ia = idx_of(s, a);
    let ib = idx_of(s, b);
    assert(s[m].freq <= s[ib].freq);
    assert(m != ia);
    let t = model_put(s, cap, k, v);
    let u = s.remove(m);
    assert(t =~= u.push(CacheEntry { key: k, score: v, freq: 1 }));
    if ia < m {
        assert(u[ia] == s[ia]);
        assert(t[ia].key == a);
    } else {
        assert(u[ia - 1] == s[ia]);
        assert(t[ia - 1].key == a);
    }
}

/// Bounded key→score store with least-frequently-used eviction.  The entry
/// vector is kept in insertion order, oldest first.
pub struct LfuCache {
    entries: Vec<CacheEntry>,
    cap: usize,
}

impl LfuCache {
    /// The resident entries, oldest first.
    pub closed spec fn model(&self) -> Seq<CacheEntry> {
        self.entries@
    }

    /// The fixed maximum entry count chosen at construction.
    pub closed spec fn spec_capacity(&self) -> nat {
        self.cap as nat
    }

    /// Well-formedness: a positive capacity bounds the entry count, keys are
    /// distinct, and every frequency counter is at least 1.
    pub closed spec fn inv(&self) -> bool {
        &&& self.cap >= 1
        &&& self.entries@.len() <= self.cap
        &&& distinct_keys(self.entries@)
        &&& forall|i: int|
            0 <= i < self.entries@.len() ==> (#[trigger] self.entries@[i]).freq >= 1
    }

    /// What well-formedness guarantees about the model, stated for callers
    /// outside this module (the invariant itself is opaque to them).
    pub proof fn lemma_inv_properties(&self)
        requires
            self.inv(),
        ensures
            distinct_keys(self.model()),
            self.model().len() <= self.spec_capacity(),
            self.spec_capacity() >= 1,
            forall|i: int| 0 <= i < self.model().len() ==> (#[trigger] self.model()[i]).freq >= 1,
    {
    }

    /// Creates an empty cache bounded by `capacity` entries; a zero capacity
    /// is rejected.
    pub fn with_capacity(capacity: usize) -> (r: Result<LfuCache, CacheError>)
        ensures
            capacity == 0 <==> r is Err,
            r matches Err(e) ==> e == CacheError::InvalidCapacity,
            r matches Ok(c) ==> c.inv() && c.model() == Seq::<CacheEntry>::empty()
                && c.spec_capacity() == capacity,
    {
        if capacity == 0 {
            Err(CacheError::InvalidCapacity)
        } else {
            Ok(LfuCache { entries: Vec::new(), cap: capacity })
        }
    }

    /// Position of the entry carrying `key`, if any.
    fn find(&self, key: Fingerprint) -> (r: Option<usize>)
        requires
            self.inv(),
        ensures
            r matches Some(i) ==> 0 <= i < self.model().len() && self.model()[i as int].key == key
                && has_key(self.model(), key) && idx_of(self.model(), key) == i,
            r is None ==> !has_key(self.model(), key),
    {
        let n = self.entries.len();
        let mut i: usize = 0;
        while i < n
            invariant
                self.inv(),
                n == self.model().len(),
                0 <= i <= n,
                forall|j: int| 0 <= j < i ==> (#[trigger] self.model()[j]).key != key,
            decreases n - i,
        {
            if self.entries[i].key.value == key.value {
                proof {
                    assert(self.model()[i as int].key == key);
                    lemma_idx_of(self.model(), key);
                }
                return Some(i);
            }
            i += 1;
        }
        None
    }

    /// Looks up a fingerprint.  On a hit the cached score is returned and the
    /// entry's frequency counter grows by one (a side effect of reading); on
    /// a miss nothing changes.
    pub fn get(&mut self, key: Fingerprint) -> (r: Option<Score>)
        requires
            old(self).inv(),
        ensures
            final(self).inv(),
            final(self).spec_capacity() == old(self).spec_capacity(),
            final(self).model() == model_get(old(self).model(), key),
            r is Some <==> has_key(old(self).model(), key),
            r matches Some(v) ==> v == score_of(old(self).model(), key),
    {
        match self.find(key) {
            Some(i) => {
                let e = self.entries[i];
                let f = if e.freq < u64::MAX {
                    e.freq + 1
                } else {
                    e.freq
                };
                self.entries.set(i, CacheEntry { key: e.key, score: e.score, freq: f });
                proof {
                    assert(self.entries@ =~= model_get(old(self).model(), key));
                }
                Some(e.score)
            },
            None => {
                assert(self.model() =~= model_get(old(self).model(), key));
                None
            },
        }
    }

    /// Inserts or overwrites the score cached under `key`.  Overwriting
    /// counts as one further access; a fresh insertion starts the entry at
    /// frequency 1 and, at capacity, first evicts the lowest-frequency
    /// entry (oldest such entry on a tie).
    pub fn put(&mut self, key: Fingerprint, score: Score)
        requires
            old(self).inv(),
        ensures
            final(self).inv(),
            final(self).spec_capacity() == old(self).spec_capacity(),
            final(self).model() == model_put(
                old(self).model(),
                old(self).spec_capacity(),
                key,
                score,
            ),
            final(self).model().len() <= final(self).spec_capacity(),
    {
        let ghost s0 = self.entries@;
        match self.find(key) {
            Some(i) => {
                let e = self.entries[i];
                let f = if e.freq < u64::MAX {
                    e.freq + 1
                } else {
                    e.freq
                };
                self.entries.set(i, CacheEntry { key, score, freq: f });
                proof {
                    assert(self.entries@ =~= model_put(s0, old(self).spec_capacity(), key, score));
                    assert forall|a: int, b: int|
                        0 <= a < b < self.entries@.len() implies (#[trigger] self.entries@[a]).key
                        != (#[trigger] self.entries@[b]).key by {
                        assert(s0[a].key != s0[b].key);
                    }
                }
            },
            None => {
                if self.entries.len() < self.cap {
                    self.entries.push(CacheEntry { key, score, freq: 1 });
                    proof {
                        assert(self.entries@ =~= model_put(
                            s0,
                            old(self).spec_capacity(),
                            key,
                            score,
                        ));
                        assert forall|a: int, b: int|
                            0 <= a < b < self.entries@.len() implies (
                            #[trigger] self.entries@[a]).key != (
                            #[trigger] self.entries@[b]).key by {
                            if b < s0.len() {
                                assert(s0[a].key != s0[b].key);
                            } else {
                                assert(self.entries@[b].key == key);
                                assert(self.entries@[a] == s0[a]);
                            }
                        }
                    }
                } else {
                    let m = self.find_victim();
                    self.entries.remove(m);
                    self.entries.push(CacheEntry { key, score, freq: 1 });
                    proof {
                        lemma_victim_unique(s0, m as int, victim_idx(s0));
                        assert(self.entries@ =~= model_put(
                            s0,
                            old(self).spec_capacity(),
                            key,
                            score,
                        ));
                        let t = s0.remove(m as int);
                        assert forall|a: int, b: int|
                            0 <= a < b < self.entries@.len() implies (
                            #[trigger] self.entries@[a]).key != (
                            #[trigger] self.entries@[b]).key by {
                            if b < t.len() {
                                if a < m && b < m {
                                    assert(t[a] == s0[a] && t[b] == s0[b]);
                                } else if a < m {
                                    assert(t[a] == s0[a] && t[b] == s0[b + 1]);
                                } else {
                                    assert(t[a] == s0[a + 1] && t[b] == s0[b + 1]);
                                }
                            } else {
                                assert(self.entries@[b].key == key);
                                if a < m {
                                    assert(self.entries@[a] == s0[a]);
                                } else {
                                    assert(self.entries@[a] == s0[a + 1]);
                                }
                            }
                        }
                    }
                }
            },
        }
    }

    /// Position of the entry eviction removes: lowest frequency, oldest on a
    /// tie.
    fn find_victim(&self) -> (r: usize)
        requires
            self.inv(),
            self.model().len() > 0,
        ensures
            is_victim(self.model(), r as int),
            r as int == victim_idx(self.model()),
            r < self.model().len(),
    {
        let n = self.entries.len();
        let mut m: usize = 0;
        let mut j: usize = 1;
        while j < n
            invariant
                self.inv(),
                n == self.model().len(),
                0 <= m < j <= n,
                forall|t: int|
                    0 <= t < j ==> self.model()[m as int].freq <= (#[trigger] self.model()[t]).freq,
                forall|t: int|
                    0 <= t < m ==> (#[trigger] self.model()[t]).freq > self.model()[m as int].freq,
            decreases n - j,
        {
            if self.entries[j].freq < self.entries[m].freq {
                m = j;
            }
            j += 1;
        }
        proof {
            assert(is_victim(self.model(), m as int));
            lemma_victim_exists(self.model());
            lemma_victim_unique(self.model(), m as int, victim_idx(self.model()));
        }
        m
    }

    /// The number of resident entries.
    pub fn size(&self) -> (r: usize)
        ensures
            r == self.model().len(),
    {
        self.entries.len()
    }

    /// The fixed maximum entry count.
    pub fn capacity(&self) -> (r: usize)
        ensures
            r == self.spec_capacity(),
    {
        self.cap
    }
}

} // verus!
