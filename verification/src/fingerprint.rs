//! Cache-key derivation: a context's fields are sorted into a canonical
//! order, encoded unambiguously, and hashed together with an item's
//! identifier into a fixed-width fingerprint.

use vstd::prelude::*;

verus! {

/// One named attribute of a scoring context.
pub struct Field {
    pub name: Vec<u8>,
    pub value: Vec<u8>,
}

/// A scoring context: an (unordered) collection of named fields describing
/// the requester or session.  Submission order carries no meaning.
pub struct Context {
    pub fields: Vec<Field>,
}

/// A scorable candidate, identified by an opaque non-empty identifier.
pub struct Item {
    pub id: Vec<u8>,
}

/// A deterministic cache key for one (normalized context, item) pair.
#[derive(Clone, Copy, PartialEq, Eq, Structural, Debug, Hash)]
pub struct Fingerprint {
    pub value: u64,
}

/// Lexicographic order on byte strings: `a` is no later than `b`.
pub open spec fn lex_le(a: Seq<u8>, b: Seq<u8>) -> bool
    decreases a.len(),
{
    if a.len() == 0 {
        true
    } else if b.len() == 0 {
        false
    } else if a[0] < b[0] {
        true
    } else if a[0] > b[0] {
        false
    } else {
        lex_le(a.drop_first(), b.drop_first())
    }
}

pub proof fn lemma_lex_le_refl(a: Seq<u8>)
    ensures
        lex_le(a, a),
    decreases a.len(),
{
    if a.len() > 0 {
        lemma_lex_le_refl(a.drop_first());
    }
}

pub proof fn lemma_lex_le_total(a: Seq<u8>, b: Seq<u8>)
    ensures
        lex_le(a, b) || lex_le(b, a),
    decreases a.len(),
{
    if a.len() > 0 && b.len() > 0 && a[0] == b[0] {
        lemma_lex_le_total(a.drop_first(), b.drop_first());
    }
}

pub proof fn lemma_lex_le_antisym(a: Seq<u8>, b: Seq<u8>)
    requires
        lex_le(a, b),
        lex_le(b, a),
    ensures
        a == b,
    decreases a.len(),
{
    if a.len() == 0 {
        assert(b.len() == 0);
        assert(a =~= b);
    } else {
        assert(b.len() > 0);
        assert(a[0] == b[0]);
        lemma_lex_le_antisym(a.drop_first(), b.drop_first());
        assert(a =~= b) by {
            assert(a.drop_first().len() == a.len() - 1);
            assert(b.drop_first().len() == b.len() - 1);
            assert(a.len() == b.len());
            assert(forall|i: int|
                1 <= i < a.len() ==> #[trigger] a[i] == a.drop_first()[i - 1] && b[i]
                    == b.drop_first()[i - 1]);
        }
    }
}

pub proof fn lemma_lex_le_trans(a: Seq<u8>, b: Seq<u8>, c: Seq<u8>)
    requires
        lex_le(a, b),
        lex_le(b, c),
    ensures
        lex_le(a, c),
    decreases a.len(),
{
    if a.len() > 0 && b.len() > 0 && c.len() > 0 && a[0] == b[0] && b[0] == c[0] {
        lemma_lex_le_trans(a.drop_first(), b.drop_first(), c.drop_first());
    }
}

/// A field's observable content: its name and value as byte strings.
pub open spec fn field_view(f: Field) -> (Seq<u8>, Seq<u8>) {
    (f.name@, f.value@)
}

/// The observable contents of a field sequence.
pub open spec fn fields_view(s: Seq<Field>) -> Seq<(Seq<u8>, Seq<u8>)> {
    s.map_values(|f: Field| field_view(f))
}

/// Canonical field order: by name, then by value on equal names.
pub open spec fn pair_le(a: (Seq<u8>, Seq<u8>), b: (Seq<u8>, Seq<u8>)) -> bool {
    if a.0 == b.0 {
        lex_le(a.1, b.1)
    } else {
        lex_le(a.0, b.0)
    }
}

/// The canonical field order as a first-class relation, the form `sort_by`
/// takes.
pub open spec fn pair_ord() -> spec_fn((Seq<u8>, Seq<u8>), (Seq<u8>, Seq<u8>)) -> bool {
    |a: (Seq<u8>, Seq<u8>), b: (Seq<u8>, Seq<u8>)| pair_le(a, b)
}

/// The canonical field order is total, so sorting by it is well defined and
/// has a unique result.
pub proof fn lemma_pair_ord_total()
    ensures
        vstd::relations::total_ordering(pair_ord()),
{
    let r = pair_ord();
    assert forall|a: (Seq<u8>, Seq<u8>)| #[trigger] r(a, a) by {
        lemma_lex_le_refl(a.0);
        lemma_lex_le_refl(a.1);
    }
    assert forall|a: (Seq<u8>, Seq<u8>), b: (Seq<u8>, Seq<u8>)| #[trigger] r(a, b) && #[trigger] r(
        b,
        a,
    ) implies a == b by {
        if a.0 == b.0 {
            lemma_lex_le_antisym(a.1, b.1);
        } else {
            lemma_lex_le_antisym(a.0, b.0);
        }
    }
    assert forall|a: (Seq<u8>, Seq<u8>), b: (Seq<u8>, Seq<u8>), c: (Seq<u8>, Seq<u8>)|
        #[trigger] r(a, b) && #[trigger] r(b, c) implies r(a, c) by {
        if a.0 == b.0 && b.0 == c.0 {
            lemma_lex_le_trans(a.1, b.1, c.1);
        } else if a.0 == b.0 {
        } else if b.0 == c.0 {
        } else {
            lemma_lex_le_trans(a.0, b.0, c.0);
            if a.0 == c.0 {
                lemma_lex_le_antisym(a.0, b.0);
            }
        }
    }
    assert forall|a: (Seq<u8>, Seq<u8>), b: (Seq<u8>, Seq<u8>)| #[trigger] r(a, b) || #[trigger] r(
        b,
        a,
    ) by {
        if a.0 == b.0 {
            lemma_lex_le_total(a.1, b.1);
        } else {
            lemma_lex_le_total(a.0, b.0);
        }
    }
}

/// The eight little-endian bytes of a length, written before each component
/// so that the encoding of a field list is unambiguous.
pub open spec fn len8(n: nat) -> Seq<u8> {
    seq![
        (n % 256) as u8,
        ((n / 0x100) % 256) as u8,
        ((n / 0x10000) % 256) as u8,
        ((n / 0x1000000) % 256) as u8,
        ((n / 0x100000000) % 256) as u8,
        ((n / 0x10000000000) % 256) as u8,
        ((n / 0x1000000000000) % 256) as u8,
        ((n / 0x100000000000000) % 256) as u8,
    ]
}

/// One field, encoded as length-prefixed name then length-prefixed value.
pub open spec fn encode_pair(p: (Seq<u8>, Seq<u8>)) -> Seq<u8> {
    len8(p.0.len()) + p.0 + len8(p.1.len()) + p.1
}

/// A field list, encoded field by field.
pub open spec fn encode_pairs(s: Seq<(Seq<u8>, Seq<u8>)>) -> Seq<u8>
    decreases s.len(),
{
    if s.len() == 0 {
        Seq::<u8>::empty()
    } else {
        encode_pair(s[0]) + encode_pairs(s.drop_first())
    }
}

/// The normalized representation of a context: its fields brought into
/// canonical order, then encoded.  Any two permutations of the same fields
/// share this representation.
pub open spec fn normal_bytes(fields: Seq<Field>) -> Seq<u8> {
    encode_pairs(fields_view(fields).sort_by(pair_ord()))
}

/// FNV-1a offset basis.
pub const FNV_OFFSET: u64 = 0xcbf29ce484222325;

/// FNV-1a prime.
pub const FNV_PRIME: u64 = 0x100000001b3;

/// One FNV-1a round: fold a byte into the running hash.
pub open spec fn fnv_step(h: u64, b: u8) -> u64 {
    ((((h ^ (b as u64)) as nat) * (FNV_PRIME as nat)) % 0x10000000000000000) as u64
}

/// FNV-1a folded over a byte string, starting from hash state `h`.
pub open spec fn fnv_rec(h: u64, s: Seq<u8>) -> u64
    decreases s.len(),
{
    if s.len() == 0 {
        h
    } else {
        fnv_rec(fnv_step(h, s[0]), s.drop_first())
    }
}

pub proof fn lemma_fnv_rec_push(h: u64, s: Seq<u8>, b: u8)
    ensures
        fnv_rec(h, s.push(b)) == fnv_step(fnv_rec(h, s), b),
    decreases s.len(),
{
    if s.len() == 0 {
        assert(s.push(b)[0] == b);
        assert(s.push(b).drop_first() =~= Seq::<u8>::empty());
        assert(fnv_rec(h, s.push(b)) == fnv_rec(fnv_step(h, b), Seq::<u8>::empty()));
        assert(fnv_rec(h, s) == h);
    } else {
        assert(s.push(b)[0] == s[0]);
        assert(s.push(b).drop_first() =~= s.drop_first().push(b));
        assert(fnv_rec(h, s.push(b)) == fnv_rec(fnv_step(h, s[0]), s.drop_first().push(b)));
        lemma_fnv_rec_push(fnv_step(h, s[0]), s.drop_first(), b);
        assert(fnv_rec(h, s) == fnv_rec(fnv_step(h, s[0]), s.drop_first()));
    }
}

/// The fingerprint derived from a normalized context representation and an
/// item identifier: the identifier is appended, length-prefixed, to the
/// context bytes and the whole string is hashed.
pub open spec fn fp_of_bytes(cb: Seq<u8>, id: Seq<u8>) -> Fingerprint {
    Fingerprint { value: fnv_rec(fnv_rec(FNV_OFFSET, cb), len8(id.len()) + id) }
}

/// The fingerprint of a context (as submitted, in any field order) and an
/// item identifier.
#[verifier::opaque]
pub open spec fn spec_fingerprint(fields: Seq<Field>, id: Seq<u8>) -> Fingerprint {
    fp_of_bytes(normal_bytes(fields), id)
}

/// `lex_le` only looks at the byte strings from the first position where
/// they differ onward.
proof fn lemma_lex_le_skip(a: Seq<u8>, b: Seq<u8>, i: int)
    requires
        0 <= i <= a.len(),
        i <= b.len(),
        forall|j: int| 0 <= j < i ==> a[j] == b[j],
    ensures
        lex_le(a, b) == lex_le(a.skip(i), b.skip(i)),
    decreases i,
{
    if i == 0 {
        assert(a.skip(0) =~= a);
        assert(b.skip(0) =~= b);
    } else {
        assert(a.len() > 0 && b.len() > 0 && a[0] == b[0]);
        assert(lex_le(a, b) == lex_le(a.drop_first(), b.drop_first()));
        assert(a.drop_first() =~= a.skip(1));
        assert(b.drop_first() =~= b.skip(1));
        lemma_lex_le_skip(a.skip(1), b.skip(1), i - 1);
        assert(a.skip(1).skip(i - 1) =~= a.skip(i));
        assert(b.skip(1).skip(i - 1) =~= b.skip(i));
    }
}

/// Compares two byte strings in lexicographic order.
fn lex_le_bytes(a: &Vec<u8>, b: &Vec<u8>) -> (r: bool)
    ensures
        r == lex_le(a@, b@),
{
    let n: usize = if a.len() < b.len() {
        a.len()
    } else {
        b.len()
    };
    let mut i: usize = 0;
    while i < n
        invariant
            0 <= i <= n,
            n <= a@.len(),
            n <= b@.len(),
            n == if a@.len() < b@.len() {
                a@.len()
            } else {
                b@.len()
            },
            forall|j: int| 0 <= j < i ==> a@[j] == b@[j],
        decreases n - i,
    {
        let x = a[i];
        let y = b[i];
        if x < y {
            proof {
                lemma_lex_le_skip(a@, b@, i as int);
                assert(a@.skip(i as int)[0] == a@[i as int]);
                assert(b@.skip(i as int)[0] == b@[i as int]);
            }
            return true;
        }
        if x > y {
            proof {
                lemma_lex_le_skip(a@, b@, i as int);
                assert(a@.skip(i as int)[0] == a@[i as int]);
                assert(b@.skip(i as int)[0] == b@[i as int]);
            }
            return false;
        }
        i += 1;
    }
    proof {
        lemma_lex_le_skip(a@, b@, n as int);
        if a@.len() <= b@.len() {
            assert(a@.skip(n as int).len() == 0);
        } else {
            assert(b@.skip(n as int).len() == 0);
            assert(a@.skip(n as int).len() > 0);
        }
    }
    a.len() <= b.len()
}

/// Tests two byte strings for equality.
fn bytes_eq(a: &Vec<u8>, b: &Vec<u8>) -> (r: bool)
    ensures
        r == (a@ == b@),
{
    if a.len() != b.len() {
        return false;
    }
    let n = a.len();
    let mut i: usize = 0;
    while i < n
        invariant
            0 <= i <= n,
            n == a@.len(),
            n == b@.len(),
            forall|j: int| 0 <= j < i ==> a@[j] == b@[j],
        decreases n - i,
    {
        if a[i] != b[i] {
            return false;
        }
        i += 1;
    }
    proof {
        assert(a@ =~= b@);
    }
    true
}

/// Compares two fields in the canonical order: by name, then by value.
fn field_le(f: &Field, g: &Field) -> (r: bool)
    ensures
        r == pair_le(field_view(*f), field_view(*g)),
{
    if bytes_eq(&f.name, &g.name) {
        lex_le_bytes(&f.value, &g.value)
    } else {
        lex_le_bytes(&f.name, &g.name)
    }
}

/// Inserts a field into a canonically ordered vector, keeping the order.
fn sorted_insert(v: &mut Vec<Field>, x: Field)
    requires
        vstd::relations::sorted_by(fields_view(old(v)@), pair_ord()),
    ensures
        vstd::relations::sorted_by(fields_view(final(v)@), pair_ord()),
        fields_view(final(v)@).to_multiset() == fields_view(old(v)@).to_multiset().insert(
            field_view(x),
        ),
{
    let n = v.len();
    let mut p: usize = 0;
    while p < n && field_le(&v[p], &x)
        invariant
            0 <= p <= n,
            n == v@.len(),
            v@ == old(v)@,
            forall|t: int| 0 <= t < p ==> pair_le(fields_view(v@)[t], field_view(x)),
        decreases n - p,
    {
        p += 1;
    }
    let ghost s1 = fields_view(v@);
    let ghost xv = field_view(x);
    let ghost pp = p as int;
    proof {
        lemma_pair_ord_total();
        let r = pair_ord();
        if p < n {
            assert(!pair_le(s1[pp], xv));
            assert(!r(s1[pp], xv));
            assert(r(s1[pp], xv) || r(xv, s1[pp]));
            assert(pair_le(xv, s1[pp]));
        }
    }
    v.insert(p, x);
    proof {
        broadcast use vstd::seq_lib::group_to_multiset_ensures;

        let s2 = fields_view(v@);
        assert(s2 =~= s1.insert(pp, xv)) by {
            assert(v@ == old(v)@.insert(pp, x));
            assert forall|j: int| 0 <= j < v@.len() implies s2[j] == s1.insert(pp, xv)[j] by {
                if j < pp {
                    assert(v@[j] == old(v)@[j]);
                } else if j == pp {
                    assert(v@[j] == x);
                } else {
                    assert(v@[j] == old(v)@[j - 1]);
                }
            }
        }
        let r = pair_ord();
        assert forall|a: int, b: int| 0 <= a < b < s2.len() implies #[trigger] r(s2[a], s2[b]) by {
            if b < pp {
                assert(s2[a] == s1[a] && s2[b] == s1[b]);
                assert(r(s1[a], s1[b]));
            } else if b == pp {
                assert(s2[a] == s1[a] && s2[b] == xv);
                assert(pair_le(s1[a], xv));
                assert(r(s1[a], xv));
            } else if a < pp {
                assert(s2[a] == s1[a] && s2[b] == s1[b - 1]);
                assert(a < b - 1 || a == b - 1);
                assert(a < pp && pp <= b - 1);
                assert(a < b - 1);
                assert(r(s1[a], s1[b - 1]));
            } else if a == pp {
                assert(s2[a] == xv && s2[b] == s1[b - 1]);
                assert(pp <= b - 1 < s1.len());
                assert(pair_le(xv, s1[pp]));
                assert(r(xv, s1[pp]));
                if b - 1 > pp {
                    assert(r(s1[pp], s1[b - 1]));
                    assert(r(xv, s1[b - 1]));
                }
            } else {
                assert(s2[a] == s1[a - 1] && s2[b] == s1[b - 1]);
                assert(r(s1[a - 1], s1[b - 1]));
            }
        }
        assert(s2.to_multiset() == s1.to_multiset().insert(xv));
    }
}

/// Brings a context's fields into the canonical order.
fn sort_fields(fields: Vec<Field>) -> (r: Vec<Field>)
    ensures
        fields_view(r@) == fields_view(fields@).sort_by(pair_ord()),
{
    let ghost orig = fields@;
    let mut rem = fields;
    let mut out: Vec<Field> = Vec::new();
    proof {
        broadcast use vstd::seq_lib::group_to_multiset_ensures;
        broadcast use vstd::multiset::group_multiset_axioms;

        assert(fields_view(out@) =~= Seq::<(Seq<u8>, Seq<u8>)>::empty());
        assert(fields_view(out@).to_multiset().add(fields_view(rem@).to_multiset()) =~= fields_view(
            orig,
        ).to_multiset());
    }
    while rem.len() > 0
        invariant
            vstd::relations::sorted_by(fields_view(out@), pair_ord()),
            fields_view(out@).to_multiset().add(fields_view(rem@).to_multiset()) == fields_view(
                orig,
            ).to_multiset(),
        decreases rem.len(),
    {
        let ghost rem0 = rem@;
        let ghost out0 = out@;
        let x = match rem.pop() {
            Some(x) => x,
            None => {
                proof {
                    assert(false);
                }
                unreached()
            },
        };
        proof {
            broadcast use vstd::seq_lib::group_to_multiset_ensures;
            broadcast use vstd::multiset::group_multiset_axioms;

            assert(fields_view(rem0) =~= fields_view(rem@).push(field_view(x)));
            assert(fields_view(rem0).to_multiset() == fields_view(rem@).to_multiset().insert(
                field_view(x),
            ));
        }
        sorted_insert(&mut out, x);
        proof {
            broadcast use vstd::multiset::group_multiset_axioms;

            assert(fields_view(out@).to_multiset().add(fields_view(rem@).to_multiset())
                =~= fields_view(orig).to_multiset());
        }
    }
    proof {
        broadcast use vstd::seq_lib::group_to_multiset_ensures;
        broadcast use vstd::multiset::group_multiset_axioms;

        assert(fields_view(rem@) =~= Seq::<(Seq<u8>, Seq<u8>)>::empty());
        assert(fields_view(out@).to_multiset() =~= fields_view(orig).to_multiset());
        lemma_pair_ord_total();
        fields_view(orig).lemma_sort_by_ensures(pair_ord());
        vstd::seq_lib::lemma_sorted_unique(
            fields_view(out@),
            fields_view(orig).sort_by(pair_ord()),
            pair_ord(),
        );
    }
    out
}

proof fn lemma_encode_pairs_snoc(t: Seq<(Seq<u8>, Seq<u8>)>, p: (Seq<u8>, Seq<u8>))
    ensures
        encode_pairs(t.push(p)) == encode_pairs(t) + encode_pair(p),
    decreases t.len(),
{
    if t.len() == 0 {
        assert(t.push(p)[0] == p);
        assert(t.push(p).drop_first() =~= Seq::<(Seq<u8>, Seq<u8>)>::empty());
        assert(encode_pairs(t.push(p)) == encode_pair(p) + encode_pairs(
            Seq::<(Seq<u8>, Seq<u8>)>::empty(),
        ));
        assert(encode_pair(p) + Seq::<u8>::empty() =~= encode_pair(p));
        assert(encode_pairs(t) + encode_pair(p) =~= encode_pair(p));
    } else {
        assert(t.push(p)[0] == t[0]);
        assert(t.push(p).drop_first() =~= t.drop_first().push(p));
        assert(encode_pairs(t.push(p)) == encode_pair(t[0]) + encode_pairs(
            t.drop_first().push(p),
        ));
        lemma_encode_pairs_snoc(t.drop_first(), p);
        assert(encode_pairs(t) == encode_pair(t[0]) + encode_pairs(t.drop_first()));
        assert(encode_pair(t[0]) + (encode_pairs(t.drop_first()) + encode_pair(p)) =~= (encode_pair(
            t[0],
        ) + encode_pairs(t.drop_first())) + encode_pair(p));
    }
}

/// Appends the eight little-endian length bytes.
fn push_len8(out: &mut Vec<u8>, n: usize)
    ensures
        final(out)@ == old(out)@ + len8(n as nat),
{
    let m = n as u64;
    out.push((m % 256) as u8);
    out.push(((m / 0x100) % 256) as u8);
    out.push(((m / 0x10000) % 256) as u8);
    out.push(((m / 0x1000000) % 256) as u8);
    out.push(((m / 0x100000000) % 256) as u8);
    out.push(((m / 0x10000000000) % 256) as u8);
    out.push(((m / 0x1000000000000) % 256) as u8);
    out.push(((m / 0x100000000000000) % 256) as u8);
    proof {
        assert(out@ =~= old(out)@ + len8(n as nat));
    }
}

/// Appends a byte string.
fn push_bytes(out: &mut Vec<u8>, b: &Vec<u8>)
    ensures
        final(out)@ == old(out)@ + b@,
{
    let n = b.len();
    let mut i: usize = 0;
    while i < n
        invariant
            0 <= i <= n,
            n == b@.len(),
            out@ == old(out)@ + b@.take(i as int),
        decreases n - i,
    {
        out.push(b[i]);
        proof {
            assert(old(out)@ + b@.take(i + 1) =~= (old(out)@ + b@.take(i as int)).push(
                b@[i as int],
            ));
        }
        i += 1;
    }
    proof {
        assert(b@.take(n as int) =~= b@);
    }
}

/// One executable FNV-1a round.
fn fnv_step_exec(h: u64, b: u8) -> (r: u64)
    ensures
        r == fnv_step(h, b),
{
    let x: u64 = h ^ (b as u64);
    proof {
        assert((x as nat) * (FNV_PRIME as nat) <= (u64::MAX as nat) * (FNV_PRIME as nat))
            by (nonlinear_arith)
            requires
                x <= u64::MAX,
        ;
    }
    let wide: u128 = (x as u128) * (FNV_PRIME as u128);
    let r = (wide % 0x10000000000000000) as u64;
    proof {
        assert(wide == (x as nat) * (FNV_PRIME as nat));
        assert(r == fnv_step(h, b));
    }
    r
}

/// FNV-1a folded over a byte vector from a given hash state.
fn fnv_from(h0: u64, bytes: &Vec<u8>) -> (r: u64)
    ensures
        r == fnv_rec(h0, bytes@),
{
    let n = bytes.len();
    let mut h = h0;
    let mut i: usize = 0;
    while i < n
        invariant
            0 <= i <= n,
            n == bytes@.len(),
            h == fnv_rec(h0, bytes@.take(i as int)),
        decreases n - i,
    {
        h = fnv_step_exec(h, bytes[i]);
        proof {
            lemma_fnv_rec_push(h0, bytes@.take(i as int), bytes@[i as int]);
            assert(bytes@.take(i + 1) =~= bytes@.take(i as int).push(bytes@[i as int]));
        }
        i += 1;
    }
    proof {
        assert(bytes@.take(n as int) =~= bytes@);
    }
    h
}

/// A context brought into canonical form once per request: the encoded,
/// sorted fields together with their running hash state, so that each item's
/// fingerprint continues from the same prefix without re-sorting or
/// re-hashing the context.
pub struct NormalizedContext {
    bytes: Vec<u8>,
    hash: u64,
}

impl View for NormalizedContext {
    type V = Seq<u8>;

    closed spec fn view(&self) -> Seq<u8> {
        self.bytes@
    }
}

impl NormalizedContext {
    /// The hash state is exactly the hash of the canonical bytes.
    pub closed spec fn wf(&self) -> bool {
        self.hash == fnv_rec(FNV_OFFSET, self.bytes@)
    }

    /// The canonical byte representation, as handed to the external scorer.
    pub fn bytes(&self) -> (r: &Vec<u8>)
        ensures
            r@ == self@,
    {
        &self.bytes
    }
}

/// Normalizes a context: sorts its fields into the canonical order and
/// encodes them.  Field order in the submitted context does not affect the
/// result.
pub fn normalize(context: Context) -> (r: NormalizedContext)
    ensures
        r.wf(),
        r@ == normal_bytes(context.fields@),
{
    let ghost cf = context.fields@;
    let sorted = sort_fields(context.fields);
    let ghost sv = fields_view(sorted@);
    let mut bytes: Vec<u8> = Vec::new();
    let n = sorted.len();
    let mut i: usize = 0;
    proof {
        assert(sv.take(0) =~= Seq::<(Seq<u8>, Seq<u8>)>::empty());
    }
    while i < n
        invariant
            0 <= i <= n,
            n == sorted@.len(),
            sv == fields_view(sorted@),
            sv == fields_view(cf).sort_by(pair_ord()),
            bytes@ == encode_pairs(sv.take(i as int)),
        decreases n - i,
    {
        let f = &sorted[i];
        push_len8(&mut bytes, f.name.len());
        push_bytes(&mut bytes, &f.name);
        push_len8(&mut bytes, f.value.len());
        push_bytes(&mut bytes, &f.value);
        proof {
            lemma_encode_pairs_snoc(sv.take(i as int), sv[i as int]);
            assert(sv.take(i + 1) =~= sv.take(i as int).push(sv[i as int]));
            assert(sv[i as int] == field_view(sorted@[i as int]));
            assert(bytes@ =~= encode_pairs(sv.take(i as int)) + encode_pair(sv[i as int]));
        }
        i += 1;
    }
    proof {
        assert(sv.take(n as int) =~= sv);
    }
    let h = fnv_from(FNV_OFFSET, &bytes);
    NormalizedContext { bytes, hash: h }
}

/// Derives the cache key for one item under an already-normalized context.
/// The item's identifier must be non-empty; malformed items are rejected at
/// the request boundary.
pub fn fingerprint(context: &NormalizedContext, item: &Item) -> (r: Fingerprint)
    requires
        context.wf(),
        item.id@.len() > 0,
    ensures
        r == fp_of_bytes(context@, item.id@),
{
    let mut tail: Vec<u8> = Vec::new();
    push_len8(&mut tail, item.id.len());
    push_bytes(&mut tail, &item.id);
    proof {
        assert(tail@ =~= len8(item.id@.len()) + item.id@);
    }
    let v = fnv_from(context.hash, &tail);
    Fingerprint { value: v }
}

/// Fingerprint stability: two contexts whose fields are permutations of one
/// another — their field multisets agree — fingerprint every item
/// identically, whatever order the fields were submitted in.
pub proof fn lemma_fingerprint_stable(c1: Seq<Field>, c2: Seq<Field>, id: Seq<u8>)
    requires
        fields_view(c1).to_multiset() == fields_view(c2).to_multiset(),
    ensures
        spec_fingerprint(c1, id) == spec_fingerprint(c2, id),
{
    reveal(spec_fingerprint);
    lemma_pair_ord_total();
    let v1 = fields_view(c1);
    let v2 = fields_view(c2);
    v1.lemma_sort_by_ensures(pair_ord());
    v2.lemma_sort_by_ensures(pair_ord());
    assert(v1.sort_by(pair_ord()).to_multiset() == v2.sort_by(pair_ord()).to_multiset());
    vstd::seq_lib::lemma_sorted_unique(v1.sort_by(pair_ord()), v2.sort_by(pair_ord()), pair_ord());
    assert(v1.sort_by(pair_ord()) == v2.sort_by(pair_ord()));
}

} // verus!
