use vstd::prelude::*;

verus! {

/// Byte-lexicographic strict order, the order of an ordered key-value engine.
pub open spec fn lex_lt(a: Seq<u8>, b: Seq<u8>) -> bool
    decreases a.len(),
{
    if a.len() == 0 {
        b.len() > 0
    } else if b.len() == 0 {
        false
    } else if a[0] != b[0] {
        a[0] < b[0]
    } else {
        lex_lt(a.drop_first(), b.drop_first())
    }
}

/// `256` raised to `n`.
pub open spec fn pow256(n: nat) -> nat
    decreases n,
{
    if n == 0 {
        1
    } else {
        256 * pow256((n - 1) as nat)
    }
}

/// The `n` low bytes of `u`, most significant first.
pub open spec fn be_bytes(u: nat, n: nat) -> Seq<u8>
    decreases n,
{
    if n == 0 {
        Seq::empty()
    } else {
        seq![(u / pow256((n - 1) as nat)) as u8] + be_bytes(u % pow256((n - 1) as nat), (n - 1) as nat)
    }
}

pub proof fn lemma_lex_irreflexive(a: Seq<u8>)
    ensures
        !lex_lt(a, a),
    decreases a.len(),
{
    if a.len() > 0 {
        lemma_lex_irreflexive(a.drop_first());
    }
}

pub proof fn lemma_lex_total(a: Seq<u8>, b: Seq<u8>)
    ensures
        a == b || lex_lt(a, b) || lex_lt(b, a),
    decreases a.len(),
{
    if a.len() > 0 && b.len() > 0 && a[0] == b[0] {
        lemma_lex_total(a.drop_first(), b.drop_first());
        if a.drop_first() == b.drop_first() {
            assert(a =~= seq![a[0]] + a.drop_first());
            assert(b =~= seq![b[0]] + b.drop_first());
        }
    } else if a.len() == 0 && b.len() == 0 {
        assert(a =~= b);
    }
}

pub proof fn lemma_lex_asymmetric(a: Seq<u8>, b: Seq<u8>)
    requires
        lex_lt(a, b),
    ensures
        !lex_lt(b, a),
    decreases a.len(),
{
    if a.len() > 0 && b.len() > 0 && a[0] == b[0] {
        lemma_lex_asymmetric(a.drop_first(), b.drop_first());
    }
}

pub proof fn lemma_lex_transitive(a: Seq<u8>, b: Seq<u8>, c: Seq<u8>)
    requires
        lex_lt(a, b),
        lex_lt(b, c),
    ensures
        lex_lt(a, c),
    decreases a.len(),
{
    if a.len() > 0 && b.len() > 0 && c.len() > 0 && a[0] == b[0] && b[0] == c[0] {
        lemma_lex_transitive(a.drop_first(), b.drop_first(), c.drop_first());
    }
}

/// Extending two keys does not change their order once a same-length head decides it.
pub proof fn lemma_lex_append(a: Seq<u8>, b: Seq<u8>, x: Seq<u8>, y: Seq<u8>)
    requires
        a.len() == b.len(),
        lex_lt(a, b),
    ensures
        lex_lt(a + x, b + y),
    decreases a.len(),
{
    assert((a + x)[0] == a[0]);
    assert((b + y)[0] == b[0]);
    if a[0] == b[0] {
        assert((a + x).drop_first() =~= a.drop_first() + x);
        assert((b + y).drop_first() =~= b.drop_first() + y);
        lemma_lex_append(a.drop_first(), b.drop_first(), x, y);
    }
}

/// A shared head does not take part in the order.
pub proof fn lemma_lex_common_prefix(p: Seq<u8>, x: Seq<u8>, y: Seq<u8>)
    ensures
        lex_lt(p + x, p + y) == lex_lt(x, y),
    decreases p.len(),
{
    if p.len() == 0 {
        assert(p + x =~= x);
        assert(p + y =~= y);
    } else {
        assert((p + x).drop_first() =~= p.drop_first() + x);
        assert((p + y).drop_first() =~= p.drop_first() + y);
        lemma_lex_common_prefix(p.drop_first(), x, y);
    }
}

/// Of two keys with same-length heads, the smaller has the smaller or the same head.
pub proof fn lemma_lex_split(a: Seq<u8>, b: Seq<u8>, x: Seq<u8>, y: Seq<u8>)
    requires
        a.len() == b.len(),
        lex_lt(a + x, b + y),
    ensures
        lex_lt(a, b) || (a == b && lex_lt(x, y)),
{
    lemma_lex_total(a, b);
    if a == b {
        lemma_lex_common_prefix(a, x, y);
    } else if lex_lt(b, a) {
        lemma_lex_append(b, a, y, x);
        lemma_lex_asymmetric(b + y, a + x);
    }
}

pub proof fn lemma_be_len(u: nat, n: nat)
    ensures
        be_bytes(u, n).len() == n,
    decreases n,
{
    if n > 0 {
        let m = (n - 1) as nat;
        lemma_pow256_positive(m);
        let r = (u % pow256(m)) as nat;
        lemma_be_len(r, m);
        assert(be_bytes(u, n) == seq![(u / pow256(m)) as u8] + be_bytes(r, m));
    }
}

pub proof fn lemma_pow256_positive(n: nat)
    ensures
        pow256(n) > 0,
    decreases n,
{
    if n > 0 {
        lemma_pow256_positive((n - 1) as nat);
    }
}

/// Big-endian encoding turns numeric order into byte order.
pub proof fn lemma_be_order(u1: nat, u2: nat, n: nat)
    requires
        u1 < u2 < pow256(n),
    ensures
        lex_lt(be_bytes(u1, n), be_bytes(u2, n)),
    decreases n,
{
    let m = (n - 1) as nat;
    let p = pow256(m);
    lemma_pow256_positive(m);
    assert(pow256(n) == 256 * p);
    let d1 = u1 / p;
    let d2 = u2 / p;
    let r1 = u1 % p;
    let r2 = u2 % p;
    assert(u1 == p * d1 + r1 && 0 <= r1 < p) by (nonlinear_arith)
        requires p > 0, d1 == u1 / p, r1 == u1 % p;
    assert(u2 == p * d2 + r2 && 0 <= r2 < p) by (nonlinear_arith)
        requires p > 0, d2 == u2 / p, r2 == u2 % p;
    assert(d2 < 256) by (nonlinear_arith)
        requires u2 == p * d2 + r2, 0 <= r2, u2 < 256 * p, p > 0, d2 >= 0;
    assert(d1 <= d2) by (nonlinear_arith)
        requires u1 == p * d1 + r1, u2 == p * d2 + r2, 0 <= r1 < p, 0 <= r2 < p, u1 < u2, p > 0;
    let b1 = be_bytes(u1, n);
    let b2 = be_bytes(u2, n);
    assert(b1[0] == d1 as u8);
    assert(b2[0] == d2 as u8);
    if d1 < d2 {
        assert(b1[0] < b2[0]);
    } else {
        assert(r1 < r2) by (nonlinear_arith)
            requires u1 == p * d1 + r1, u2 == p * d2 + r2, d1 == d2, u1 < u2;
        lemma_be_order(r1, r2, m);
        assert(b1.drop_first() =~= be_bytes(r1, m));
        assert(b2.drop_first() =~= be_bytes(r2, m));
    }
}

} // verus!
