//! Caching proxy core for a recommendation-scoring service.
//!
//! A scoring request carries a context (named fields) and a batch of candidate
//! items.  Each (context, item) pair is keyed by a deterministic fingerprint;
//! scores already produced for a fingerprint are served from a bounded
//! least-frequently-used cache instead of being recomputed by the external
//! scoring collaborator.

pub mod cache;
pub mod fingerprint;
pub mod handler;
pub mod resolver;
