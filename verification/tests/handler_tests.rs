use std::cell::Cell;
use std::rc::Rc;

use recsys_proxy_cache::cache::{CacheError, Score};
use recsys_proxy_cache::fingerprint::{Context, Field, Item, NormalizedContext};
use recsys_proxy_cache::handler::{GrpcServer, RequestError, ScoreRequest};
use recsys_proxy_cache::resolver::{ScoreError, ScoreOutcome, Scorer};

fn field(name: &str, value: &str) -> Field {
    Field { name: name.as_bytes().to_vec(), value: value.as_bytes().to_vec() }
}

fn item(id: &str) -> Item {
    Item { id: id.as_bytes().to_vec() }
}

/// Deterministic scorer: the sum of the identifier bytes, so two servers
/// given the same request agree.  The call counter is shared so a test can
/// still read it after the server has taken ownership of the scorer.
struct SumScorer {
    calls: Rc<Cell<u64>>,
}

fn sum_scorer() -> (SumScorer, Rc<Cell<u64>>) {
    let calls = Rc::new(Cell::new(0));
    (SumScorer { calls: calls.clone() }, calls)
}

impl Scorer for SumScorer {
    fn score(&mut self, _context: &NormalizedContext, item: &Item) -> Result<Score, ScoreError> {
        self.calls.set(self.calls.get() + 1);
        let mut total: u64 = 0;
        for b in &item.id {
            total += *b as u64;
        }
        Ok(Score { bits: total })
    }
}

#[test]
fn zero_capacity_prevents_startup() {
    let (scorer, _) = sum_scorer();
    let r = GrpcServer::new(0, scorer);
    assert!(matches!(r, Err(CacheError::InvalidCapacity)));
}

#[test]
fn empty_item_list_is_invalid_argument_and_touches_nothing() {
    let (scorer, calls) = sum_scorer();
    let mut srv = GrpcServer::new(4, scorer).unwrap();
    let r = srv.get_scores(ScoreRequest { context: None, items: vec![] });
    assert!(matches!(r, Err(RequestError::InvalidArgument)));
    assert_eq!(calls.get(), 0);
}

#[test]
fn empty_item_identifier_is_invalid_argument() {
    let (scorer, calls) = sum_scorer();
    let mut srv = GrpcServer::new(4, scorer).unwrap();
    let r = srv.get_scores(ScoreRequest { context: None, items: vec![item("ok"), item("")] });
    assert!(matches!(r, Err(RequestError::InvalidArgument)));
    assert_eq!(calls.get(), 0);
}

#[test]
fn missing_context_counts_as_zero_fields() {
    let (s1, _) = sum_scorer();
    let (s2, _) = sum_scorer();
    let mut with_none = GrpcServer::new(4, s1).unwrap();
    let mut with_empty = GrpcServer::new(4, s2).unwrap();
    let items = || vec![item("m1"), item("m2")];
    let a = with_none
        .get_scores(ScoreRequest { context: None, items: items() })
        .unwrap();
    let b = with_empty
        .get_scores(ScoreRequest {
            context: Some(Context { fields: vec![] }),
            items: items(),
        })
        .unwrap();
    assert_eq!(a.scores, b.scores);
}

#[test]
fn scores_align_with_items() {
    let (scorer, _) = sum_scorer();
    let mut srv = GrpcServer::new(4, scorer).unwrap();
    let resp = srv
        .get_scores(ScoreRequest {
            context: Some(Context { fields: vec![field("user", "u1")] }),
            items: vec![item("a"), item("bc")],
        })
        .unwrap();
    assert_eq!(
        resp.scores,
        vec![
            ScoreOutcome::Scored(Score { bits: b'a' as u64 }),
            ScoreOutcome::Scored(Score { bits: (b'b' + b'c') as u64 }),
        ]
    );
}

#[test]
fn repeated_requests_are_served_from_the_cache() {
    let (scorer, calls) = sum_scorer();
    let mut srv = GrpcServer::new(8, scorer).unwrap();
    let request = || ScoreRequest {
        context: Some(Context { fields: vec![field("user", "u1")] }),
        items: vec![item("m1"), item("m2")],
    };
    let first = srv.get_scores(request()).unwrap();
    assert_eq!(calls.get(), 2);
    let second = srv.get_scores(request()).unwrap();
    assert_eq!(first.scores, second.scores);
    assert_eq!(calls.get(), 2);
}
