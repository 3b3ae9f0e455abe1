//! Request boundary: validates an incoming batch request, delegates to the
//! score resolver, and assembles the reply.

use vstd::prelude::*;

use crate::cache::{CacheEntry, CacheError, LfuCache, Score};
use crate::fingerprint::{Context, Field, Item};
use crate::resolver::{resolve, resolve_model, ScoreOutcome, Scorer};

verus! {

/// Request-level error surfaced to the caller.
#[derive(Clone, Copy, PartialEq, Eq, Structural, Debug)]
pub enum RequestError {
    InvalidArgument,
}

/// An incoming scoring request: an optional context and the candidate
/// items.  An absent context means a context with zero fields, not an
/// error.
pub struct ScoreRequest {
    pub context: Option<Context>,
    pub items: Vec<Item>,
}

/// The reply: one outcome per requested item, in request order.
pub struct ScoreResponse {
    pub scores: Vec<ScoreOutcome>,
}

/// The context fields a request effectively carries: none when the context
/// is absent.
pub open spec fn request_fields(req: ScoreRequest) -> Seq<Field> {
    match req.context {
        Some(c) => c.fields@,
        None => Seq::<Field>::empty(),
    }
}

/// A request is accepted exactly when it names at least one item and every
/// item has a non-empty identifier.
pub open spec fn request_valid(req: ScoreRequest) -> bool {
    &&& req.items@.len() > 0
    &&& forall|i: int| 0 <= i < req.items@.len() ==> (#[trigger] req.items@[i]).id@.len() > 0
}

/// The request-facing surface of the service: the cache, constructed once
/// and owned here for the process lifetime, and the injected external
/// scorer.  Transport lives outside the library.
pub struct GrpcServer<S> {
    cache: LfuCache,
    scorer: S,
}

impl<S: Scorer> GrpcServer<S> {
    /// The cache's well-formedness, carried through every request.
    pub closed spec fn inv(&self) -> bool {
        self.cache.inv()
    }

    /// The resident cache entries, oldest first.
    pub closed spec fn cache_model(&self) -> Seq<CacheEntry> {
        self.cache.model()
    }

    /// The fixed cache capacity.
    pub closed spec fn cache_capacity(&self) -> nat {
        self.cache.spec_capacity()
    }

    /// Builds the service around an empty cache of the given capacity; a
    /// zero capacity is rejected and prevents startup.
    pub fn new(capacity: usize, scorer: S) -> (r: Result<GrpcServer<S>, CacheError>)
        ensures
            capacity == 0 <==> r is Err,
            r matches Err(e) ==> e == CacheError::InvalidCapacity,
            r matches Ok(srv) ==> srv.inv() && srv.cache_model() == Seq::<CacheEntry>::empty()
                && srv.cache_capacity() == capacity,
    {
        match LfuCache::with_capacity(capacity) {
            Ok(cache) => Ok(GrpcServer { cache, scorer }),
            Err(e) => Err(e),
        }
    }

    /// Serves one batch request.  An empty item list, or an item without an
    /// identifier, is rejected as `InvalidArgument` before any cache or
    /// scorer work.  Otherwise the reply carries one outcome per item in
    /// request order, produced by the resolver against this server's cache
    /// (an absent context counts as zero fields).
    pub fn get_scores(&mut self, request: ScoreRequest) -> (r: Result<
        ScoreResponse,
        RequestError,
    >)
        requires
            old(self).inv(),
        ensures
            final(self).inv(),
            final(self).cache_capacity() == old(self).cache_capacity(),
            r is Err <==> !request_valid(request),
            r matches Err(e) ==> e == RequestError::InvalidArgument && final(self).cache_model()
                == old(self).cache_model(),
            r matches Ok(resp) ==> resp.scores@.len() == request.items@.len()
                && exists|ms: Seq<Option<Score>>|
                ms.len() == request.items@.len() && resp.scores@ == resolve_model(
                    old(self).cache_model(),
                    old(self).cache_capacity(),
                    request_fields(request),
                    request.items@,
                    ms,
                ).0 && final(self).cache_model() == resolve_model(
                    old(self).cache_model(),
                    old(self).cache_capacity(),
                    request_fields(request),
                    request.items@,
                    ms,
                ).1,
    {
        let ScoreRequest { context, items } = request;
        if items.len() == 0 {
            return Err(RequestError::InvalidArgument);
        }
        let n = items.len();
        let mut i: usize = 0;
        while i < n
            invariant
                0 <= i <= n,
                n == items@.len(),
                *self == *old(self),
                old(self).inv(),
                items@ == request.items@,
                items@.len() > 0,
                forall|j: int| 0 <= j < i ==> (#[trigger] items@[j]).id@.len() > 0,
            decreases n - i,
        {
            if items[i].id.len() == 0 {
                proof {
                    assert(request.items@[i as int].id@.len() == 0);
                    assert(!request_valid(request));
                }
                return Err(RequestError::InvalidArgument);
            }
            i += 1;
        }
        proof {
            assert(request_valid(request));
        }
        let ctx = match context {
            Some(c) => c,
            None => Context { fields: Vec::new() },
        };
        proof {
            assert(ctx.fields@ =~= request_fields(request));
        }
        let ghost pre = self.cache.model();
        let ghost cap0 = self.cache.spec_capacity();
        let ghost cfv = ctx.fields@;
        let scores = resolve(&mut self.cache, &mut self.scorer, ctx, &items);
        proof {
            let ms0 = choose|ms: Seq<Option<Score>>|
                ms.len() == items@.len() && scores@ == resolve_model(
                    pre,
                    cap0,
                    cfv,
                    items@,
                    ms,
                ).0 && self.cache.model() == resolve_model(pre, cap0, cfv, items@, ms).1;
            assert(ms0.len() == request.items@.len() && scores@ == resolve_model(
                old(self).cache_model(),
                old(self).cache_capacity(),
                request_fields(request),
                request.items@,
                ms0,
            ).0 && self.cache_model() == resolve_model(
                old(self).cache_model(),
                old(self).cache_capacity(),
                request_fields(request),
                request.items@,
                ms0,
            ).1);
        }
        Ok(ScoreResponse { scores })
    }
}

} // verus!
