//! Score resolution: one score per item, order preserved, each served from
//! the cache when possible and otherwise computed by the external scoring
//! collaborator and cached for future requests.

use vstd::prelude::*;

use crate::cache::{
    distinct_keys, has_key, lemma_get_preserves, lemma_put_fresh_preserves, model_get, model_put,
    score_of, CacheEntry, LfuCache, Score,
};
use crate::fingerprint::{
    fingerprint, normal_bytes, normalize, spec_fingerprint, Context, Field, Fingerprint, Item,
    NormalizedContext,
};

verus! {

/// Failure of the external scoring collaborator for one item.  It must not
/// poison the cache and must not abort sibling items of the same batch.
#[derive(Clone, Copy, PartialEq, Eq, Structural, Debug)]
pub struct ScoreError {}

/// Per-item result of a batch resolution.  A scoring failure is surfaced
/// explicitly for that item alone — the chosen partial-failure policy —
/// rather than being replaced by a placeholder value.
#[derive(Clone, Copy, PartialEq, Eq, Structural, Debug)]
pub enum ScoreOutcome {
    Scored(Score),
    Failed,
}

/// The external scoring collaborator: computes a score for one (normalized
/// context, item) pair, or fails.  Injected so integrators can supply the
/// real backend and tests a deterministic stand-in; implementations carry no
/// verified contract.
pub trait Scorer {
    fn score(&mut self, context: &NormalizedContext, item: &Item) -> (r: Result<
        Score,
        ScoreError,
    >);
}

/// Effect of resolving one item whose fingerprint is `k`, given what the
/// scorer would answer on a miss (`None` standing for a scoring failure):
/// a hit returns the cached score and bumps its frequency; a scored miss
/// caches and returns the new score; a failed miss leaves the cache alone.
pub open spec fn resolve_step(
    s: Seq<CacheEntry>,
    cap: nat,
    k: Fingerprint,
    m: Option<Score>,
) -> (ScoreOutcome, Seq<CacheEntry>) {
    if has_key(s, k) {
        (ScoreOutcome::Scored(score_of(s, k)), model_get(s, k))
    } else {
        match m {
            Some(v) => (ScoreOutcome::Scored(v), model_put(s, cap, k, v)),
            None => (ScoreOutcome::Failed, s),
        }
    }
}

/// Effect of resolving a batch in order, item by item.  `ms` lists, for each
/// position, what the scorer would answer if that item misses; it is ignored
/// at positions that hit.
pub open spec fn resolve_model(
    s: Seq<CacheEntry>,
    cap: nat,
    fields: Seq<Field>,
    items: Seq<Item>,
    ms: Seq<Option<Score>>,
) -> (Seq<ScoreOutcome>, Seq<CacheEntry>)
    decreases items.len(),
{
    if items.len() == 0 {
        (Seq::<ScoreOutcome>::empty(), s)
    } else {
        let step = resolve_step(s, cap, spec_fingerprint(fields, items[0].id@), ms[0]);
        let rest = resolve_model(step.1, cap, fields, items.drop_first(), ms.drop_first());
        (seq![step.0] + rest.0, rest.1)
    }
}

#[verifier::rlimit(60)]
proof fn lemma_resolve_model_snoc(
    s: Seq<CacheEntry>,
    cap: nat,
    fields: Seq<Field>,
    items: Seq<Item>,
    ms: Seq<Option<Score>>,
    it: Item,
    m: Option<Score>,
)
    requires
        ms.len() == items.len(),
    ensures
        ({
            let prev = resolve_model(s, cap, fields, items, ms);
            let step = resolve_step(prev.1, cap, spec_fingerprint(fields, it.id@), m);
            resolve_model(s, cap, fields, items.push(it), ms.push(m)).0 == prev.0.push(step.0)
                && resolve_model(s, cap, fields, items.push(it), ms.push(m)).1 == step.1
        }),
    decreases items.len(),
{
    let prev = resolve_model(s, cap, fields, items, ms);
    let k = spec_fingerprint(fields, it.id@);
    let step = resolve_step(prev.1, cap, k, m);
    if items.len() == 0 {
        let itp = items.push(it);
        let msp = ms.push(m);
        assert(itp[0] == it);
        assert(itp.drop_first() =~= Seq::<Item>::empty());
        assert(msp.drop_first() =~= Seq::<Option<Score>>::empty());
        assert(msp[0] == m);
        assert(prev.0 =~= Seq::<ScoreOutcome>::empty());
        assert(prev.1 == s);
        let stepw = resolve_step(s, cap, spec_fingerprint(fields, itp[0].id@), msp[0]);
        assert(stepw == step);
        let rest = resolve_model(stepw.1, cap, fields, itp.drop_first(), msp.drop_first());
        assert(rest.0 =~= Seq::<ScoreOutcome>::empty());
        assert(rest.1 == stepw.1);
        let whole = resolve_model(s, cap, fields, itp, msp);
        assert(whole.0 == seq![stepw.0] + rest.0);
        assert(whole.1 == rest.1);
        assert(whole.0 =~= seq![step.0]);
        assert(prev.0.push(step.0) =~= seq![step.0]);
        assert(whole.1 == step.1);
    } else {
        assert(items.push(it)[0] == items[0]);
        assert(ms.push(m)[0] == ms[0]);
        assert(items.push(it).drop_first() =~= items.drop_first().push(it));
        assert(ms.push(m).drop_first() =~= ms.drop_first().push(m));
        let step0 = resolve_step(s, cap, spec_fingerprint(fields, items[0].id@), ms[0]);
        lemma_resolve_model_snoc(
            step0.1,
            cap,
            fields,
            items.drop_first(),
            ms.drop_first(),
            it,
            m,
        );
        let prev_rest = resolve_model(step0.1, cap, fields, items.drop_first(), ms.drop_first());
        assert(prev.0 == seq![step0.0] + prev_rest.0);
        assert(prev.1 == prev_rest.1);
        let whole = resolve_model(s, cap, fields, items.push(it), ms.push(m));
        assert(whole.0 =~= seq![step0.0] + prev_rest.0.push(step.0));
        assert(prev.0.push(step.0) =~= seq![step0.0] + prev_rest.0.push(step.0));
        assert(whole.1 == step.1);
    }
}

/// Idempotent resolution: once a cache already holds every item's
/// fingerprint with the scores an earlier resolution produced, resolving the
/// same context and items again returns exactly those scores — whatever the
/// scorer would now answer — because every item hits the cache.
pub proof fn lemma_resolve_idempotent(
    s: Seq<CacheEntry>,
    cap: nat,
    fields: Seq<Field>,
    items: Seq<Item>,
    first: Seq<ScoreOutcome>,
    ms: Seq<Option<Score>>,
)
    requires
        distinct_keys(s),
        ms.len() == items.len(),
        first.len() == items.len(),
        forall|i: int|
            0 <= i < items.len() ==> has_key(
                s,
                spec_fingerprint(fields, (#[trigger] items[i]).id@),
            ),
        forall|i: int|
            0 <= i < items.len() ==> #[trigger] first[i] == ScoreOutcome::Scored(
                score_of(s, spec_fingerprint(fields, items[i].id@)),
            ),
    ensures
        resolve_model(s, cap, fields, items, ms).0 == first,
    decreases items.len(),
{
    if items.len() == 0 {
        assert(first =~= Seq::<ScoreOutcome>::empty());
    } else {
        let k = spec_fingerprint(fields, items[0].id@);
        assert(has_key(s, k));
        let step = resolve_step(s, cap, k, ms[0]);
        assert(step.0 == ScoreOutcome::Scored(score_of(s, k)));
        assert(step.1 == model_get(s, k));
        lemma_get_preserves(s, k);
        assert forall|i: int|
            0 <= i < items.drop_first().len() implies has_key(
            step.1,
            spec_fingerprint(fields, (#[trigger] items.drop_first()[i]).id@),
        ) by {
            assert(items.drop_first()[i] == items[i + 1]);
            assert(has_key(s, spec_fingerprint(fields, items[i + 1].id@)));
            assert(score_of(step.1, spec_fingerprint(fields, items[i + 1].id@)) == score_of(
                s,
                spec_fingerprint(fields, items[i + 1].id@),
            ));
        }
        assert forall|i: int|
            0 <= i < first.drop_first().len() implies #[trigger] first.drop_first()[i]
            == ScoreOutcome::Scored(
            score_of(step.1, spec_fingerprint(fields, items.drop_first()[i].id@)),
        ) by {
            assert(items.drop_first()[i] == items[i + 1]);
            assert(first.drop_first()[i] == first[i + 1]);
            assert(score_of(step.1, spec_fingerprint(fields, items[i + 1].id@)) == score_of(
                s,
                spec_fingerprint(fields, items[i + 1].id@),
            ));
        }
        lemma_resolve_idempotent(
            step.1,
            cap,
            fields,
            items.drop_first(),
            first.drop_first(),
            ms.drop_first(),
        );
        let rest = resolve_model(step.1, cap, fields, items.drop_first(), ms.drop_first());
        assert(rest.0 == first.drop_first());
        assert(first[0] == step.0);
        assert(seq![step.0] + first.drop_first() =~= first);
    }
}

/// A resolution populates the cache: when the batch's fingerprints are
/// distinct, the cache has room for all of them, and the scorer answers
/// every miss, then afterwards every item's fingerprint is resident, its
/// cached score is the score reported for that item, and nothing that was
/// resident before has been evicted or changed.
pub proof fn lemma_resolve_populates(
    s: Seq<CacheEntry>,
    cap: nat,
    fields: Seq<Field>,
    items: Seq<Item>,
    ms: Seq<Option<Score>>,
)
    requires
        distinct_keys(s),
        ms.len() == items.len(),
        forall|i: int| 0 <= i < ms.len() ==> (#[trigger] ms[i]) is Some,
        forall|i: int, j: int|
            0 <= i < j < items.len() ==> spec_fingerprint(fields, (#[trigger] items[i]).id@)
                != spec_fingerprint(fields, (#[trigger] items[j]).id@),
        s.len() + items.len() <= cap,
    ensures
        ({
            let r = resolve_model(s, cap, fields, items, ms);
            &&& r.0.len() == items.len()
            &&& distinct_keys(r.1)
            &&& r.1.len() <= s.len() + items.len()
            &&& forall|k2: Fingerprint|
                #[trigger] has_key(s, k2) ==> has_key(r.1, k2) && score_of(r.1, k2) == score_of(
                    s,
                    k2,
                )
            &&& forall|i: int|
                0 <= i < items.len() ==> has_key(
                    r.1,
                    spec_fingerprint(fields, (#[trigger] items[i]).id@),
                ) && r.0[i] == ScoreOutcome::Scored(
                    score_of(r.1, spec_fingerprint(fields, items[i].id@)),
                )
        }),
    decreases items.len(),
{
    let r = resolve_model(s, cap, fields, items, ms);
    if items.len() == 0 {
    } else {
        let k0 = spec_fingerprint(fields, items[0].id@);
        let step = resolve_step(s, cap, k0, ms[0]);
        let s1 = step.1;
        if has_key(s, k0) {
            lemma_get_preserves(s, k0);
            assert(step.0 == ScoreOutcome::Scored(score_of(s, k0)));
            assert(score_of(s1, k0) == score_of(s, k0));
        } else {
            let v = ms[0]->Some_0;
            assert(s.len() < cap);
            lemma_put_fresh_preserves(s, cap, k0, v);
            assert(step.0 == ScoreOutcome::Scored(v));
            assert(score_of(s1, k0) == v);
        }
        assert(distinct_keys(s1));
        assert(s1.len() <= s.len() + 1);
        assert(has_key(s1, k0) && step.0 == ScoreOutcome::Scored(score_of(s1, k0)));
        let rest_items = items.drop_first();
        let rest_ms = ms.drop_first();
        assert forall|i: int, j: int|
            0 <= i < j < rest_items.len() implies spec_fingerprint(
            fields,
            (#[trigger] rest_items[i]).id@,
        ) != spec_fingerprint(fields, (#[trigger] rest_items[j]).id@) by {
            assert(rest_items[i] == items[i + 1] && rest_items[j] == items[j + 1]);
        }
        assert(forall|i: int| 0 <= i < rest_ms.len() ==> (#[trigger] rest_ms[i]) is Some);
        lemma_resolve_populates(s1, cap, fields, rest_items, rest_ms);
        let rest = resolve_model(s1, cap, fields, rest_items, rest_ms);
        assert(r.0 == seq![step.0] + rest.0);
        assert(r.1 == rest.1);
        assert forall|k2: Fingerprint| #[trigger] has_key(s, k2) implies has_key(r.1, k2)
            && score_of(r.1, k2) == score_of(s, k2) by {
            assert(has_key(s1, k2) && score_of(s1, k2) == score_of(s, k2));
        }
        assert(has_key(r.1, k0) && score_of(r.1, k0) == score_of(s1, k0));
        assert forall|i: int|
            0 <= i < items.len() implies has_key(
            r.1,
            spec_fingerprint(fields, (#[trigger] items[i]).id@),
        ) && r.0[i] == ScoreOutcome::Scored(
            score_of(r.1, spec_fingerprint(fields, items[i].id@)),
        ) by {
            if i == 0 {
                assert(r.0[0] == step.0);
            } else {
                assert(rest_items[i - 1] == items[i]);
                assert(r.0[i] == rest.0[i - 1]);
            }
        }
    }
}

/// Caching short-circuits recomputation: under the conditions in which a
/// first resolution populates the cache (distinct fingerprints, room for
/// the batch, a scorer that answers), a second resolution of the same
/// context and items returns exactly the first resolution's scores — no
/// matter what the scorer would answer the second time.
pub proof fn lemma_resolve_twice_same_scores(
    s: Seq<CacheEntry>,
    cap: nat,
    fields: Seq<Field>,
    items: Seq<Item>,
    ms1: Seq<Option<Score>>,
    ms2: Seq<Option<Score>>,
)
    requires
        distinct_keys(s),
        ms1.len() == items.len(),
        ms2.len() == items.len(),
        forall|i: int| 0 <= i < ms1.len() ==> (#[trigger] ms1[i]) is Some,
        forall|i: int, j: int|
            0 <= i < j < items.len() ==> spec_fingerprint(fields, (#[trigger] items[i]).id@)
                != spec_fingerprint(fields, (#[trigger] items[j]).id@),
        s.len() + items.len() <= cap,
    ensures
        ({
            let first = resolve_model(s, cap, fields, items, ms1);
            resolve_model(first.1, cap, fields, items, ms2).0 == first.0
        }),
{
    lemma_resolve_populates(s, cap, fields, items, ms1);
    let first = resolve_model(s, cap, fields, items, ms1);
    lemma_resolve_idempotent(first.1, cap, fields, items, first.0, ms2);
}

/// Resolves one score per item, in item order.  The context is normalized
/// once; each item's fingerprint is looked up in the cache, and on a miss
/// the external scorer is consulted and a produced score cached.  The result
/// and the final cache state are exactly one run of `resolve_model` for some
/// sequence of scorer answers.
pub fn resolve<S: Scorer>(
    cache: &mut LfuCache,
    scorer: &mut S,
    context: Context,
    items: &Vec<Item>,
) -> (r: Vec<ScoreOutcome>)
    requires
        old(cache).inv(),
        forall|i: int| 0 <= i < items@.len() ==> (#[trigger] items@[i]).id@.len() > 0,
    ensures
        final(cache).inv(),
        final(cache).spec_capacity() == old(cache).spec_capacity(),
        r@.len() == items@.len(),
        exists|ms: Seq<Option<Score>>|
            ms.len() == items@.len() && r@ == resolve_model(
                old(cache).model(),
                old(cache).spec_capacity(),
                context.fields@,
                items@,
                ms,
            ).0 && final(cache).model() == resolve_model(
                old(cache).model(),
                old(cache).spec_capacity(),
                context.fields@,
                items@,
                ms,
            ).1,
{
    let ghost s0 = cache.model();
    let ghost cap = cache.spec_capacity();
    let ghost cf = context.fields@;
    let nc = normalize(context);
    let mut out: Vec<ScoreOutcome> = Vec::new();
    let ghost mut ms: Seq<Option<Score>> = Seq::empty();
    let n = items.len();
    let mut i: usize = 0;
    proof {
        assert(items@.take(0) =~= Seq::<Item>::empty());
        assert(out@ =~= resolve_model(s0, cap, cf, items@.take(0), ms).0);
    }
    while i < n
        invariant
            0 <= i <= n,
            n == items@.len(),
            cache.inv(),
            cache.spec_capacity() == cap,
            nc.wf(),
            nc@ == normal_bytes(cf),
            ms.len() == i,
            out@.len() == i,
            out@ == resolve_model(s0, cap, cf, items@.take(i as int), ms).0,
            cache.model() == resolve_model(s0, cap, cf, items@.take(i as int), ms).1,
            forall|j: int| 0 <= j < items@.len() ==> (#[trigger] items@[j]).id@.len() > 0,
        decreases n - i,
    {
        let item = &items[i];
        let k = fingerprint(&nc, item);
        proof {
            reveal(spec_fingerprint);
            assert(k == spec_fingerprint(cf, item.id@));
        }
        let ghost pre = cache.model();
        let ghost ms0 = ms;
        let got = cache.get(k);
        match got {
            Some(v) => {
                out.push(ScoreOutcome::Scored(v));
                proof {
                    ms = ms.push(None);
                    lemma_resolve_model_snoc(s0, cap, cf, items@.take(i as int), ms0, *item, None);
                    assert(items@.take(i + 1) =~= items@.take(i as int).push(items@[i as int]));
                    assert(resolve_step(pre, cap, k, None).0 == ScoreOutcome::Scored(v));
                    assert(resolve_step(pre, cap, k, None).1 == model_get(pre, k));
                }
            },
            None => {
                proof {
                    assert(cache.model() == pre);
                }
                let res = scorer.score(&nc, item);
                match res {
                    Ok(v) => {
                        cache.put(k, v);
                        out.push(ScoreOutcome::Scored(v));
                        proof {
                            ms = ms.push(Some(v));
                            lemma_resolve_model_snoc(
                                s0,
                                cap,
                                cf,
                                items@.take(i as int),
                                ms0,
                                *item,
                                Some(v),
                            );
                            assert(items@.take(i + 1) =~= items@.take(i as int).push(
                                items@[i as int],
                            ));
                            assert(resolve_step(pre, cap, k, Some(v)).0 == ScoreOutcome::Scored(v));
                            assert(resolve_step(pre, cap, k, Some(v)).1 == model_put(
                                pre,
                                cap,
                                k,
                                v,
                            ));
                        }
                    },
                    Err(_) => {
                        out.push(ScoreOutcome::Failed);
                        proof {
                            ms = ms.push(None);
                            lemma_resolve_model_snoc(
                                s0,
                                cap,
                                cf,
                                items@.take(i as int),
                                ms0,
                                *item,
                                None,
                            );
                            assert(items@.take(i + 1) =~= items@.take(i as int).push(
                                items@[i as int],
                            ));
                            assert(resolve_step(pre, cap, k, None).0 == ScoreOutcome::Failed);
                            assert(resolve_step(pre, cap, k, None).1 == pre);
                        }
                    },
                }
            },
        }
        i += 1;
    }
    proof {
        assert(items@.take(n as int) =~= items@);
        assert(ms.len() == items@.len() && out@ == resolve_model(s0, cap, cf, items@, ms).0
            && cache.model() == resolve_model(s0, cap, cf, items@, ms).1);
    }
    out
}

} // verus!
