use recsys_proxy_cache::fingerprint::{fingerprint, normalize, Context, Field, Item};

fn field(name: &str, value: &str) -> Field {
    Field { name: name.as_bytes().to_vec(), value: value.as_bytes().to_vec() }
}

fn item(id: &str) -> Item {
    Item { id: id.as_bytes().to_vec() }
}

fn ctx(fields: Vec<Field>) -> Context {
    Context { fields }
}

#[test]
fn permuted_fields_share_a_fingerprint() {
    let c1 = ctx(vec![field("user", "u1"), field("region", "eu"), field("ab", "x")]);
    let c2 = ctx(vec![field("ab", "x"), field("user", "u1"), field("region", "eu")]);
    let n1 = normalize(c1);
    let n2 = normalize(c2);
    let i = item("movie-42");
    assert_eq!(fingerprint(&n1, &i), fingerprint(&n2, &i));
}

#[test]
fn duplicate_names_permuted_share_a_fingerprint() {
    let c1 = ctx(vec![field("tag", "b"), field("tag", "a")]);
    let c2 = ctx(vec![field("tag", "a"), field("tag", "b")]);
    let n1 = normalize(c1);
    let n2 = normalize(c2);
    let i = item("x");
    assert_eq!(fingerprint(&n1, &i), fingerprint(&n2, &i));
}

#[test]
fn normalization_is_deterministic() {
    let make = || ctx(vec![field("k1", "v1"), field("k2", "v2")]);
    let n1 = normalize(make());
    let n2 = normalize(make());
    assert_eq!(n1.bytes(), n2.bytes());
    let i = item("thing");
    assert_eq!(fingerprint(&n1, &i), fingerprint(&n2, &i));
}

#[test]
fn different_items_get_different_fingerprints() {
    let n = normalize(ctx(vec![field("user", "u1")]));
    assert_ne!(fingerprint(&n, &item("movie-1")), fingerprint(&n, &item("movie-2")));
}

#[test]
fn context_contributes_to_the_fingerprint() {
    let n1 = normalize(ctx(vec![field("user", "u1")]));
    let n2 = normalize(ctx(vec![field("user", "u2")]));
    let i = item("movie-1");
    assert_ne!(fingerprint(&n1, &i), fingerprint(&n2, &i));
}

#[test]
fn empty_context_normalizes_to_empty_bytes() {
    let n = normalize(ctx(vec![]));
    assert!(n.bytes().is_empty());
    let i = item("movie-1");
    assert_eq!(fingerprint(&n, &i), fingerprint(&normalize(ctx(vec![])), &i));
}

#[test]
fn field_boundaries_are_unambiguous() {
    // ("ab", "c") and ("a", "bc") must not collide through concatenation.
    let n1 = normalize(ctx(vec![field("ab", "c")]));
    let n2 = normalize(ctx(vec![field("a", "bc")]));
    let i = item("x");
    assert_ne!(fingerprint(&n1, &i), fingerprint(&n2, &i));
}
