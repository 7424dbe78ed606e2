use vstd::prelude::*;
use crate::order::{lemma_lex_irreflexive, lemma_lex_total, lemma_lex_transitive, lex_lt};

verus! {

/// The byte strings held by a vector of keys.
pub open spec fn key_views(v: Seq<Vec<u8>>) -> Seq<Seq<u8>> {
    v.map_values(|k: Vec<u8>| k@)
}

/// Keys in strictly ascending byte order.
pub open spec fn sorted(s: Seq<Seq<u8>>) -> bool {
    forall|i: int, j: int| 0 <= i < j < s.len() ==> lex_lt(#[trigger] s[i], #[trigger] s[j])
}

pub open spec fn has_prefix(k: Seq<u8>, p: Seq<u8>) -> bool {
    p.len() <= k.len() && k.subrange(0, p.len() as int) == p
}

/// The keys of `s` that start with `p`, last first: for an ascending `s`, newest first.
pub open spec fn newest_matching(s: Seq<Seq<u8>>, p: Seq<u8>) -> Seq<Seq<u8>>
    decreases s.len(),
{
    if s.len() == 0 {
        Seq::empty()
    } else if has_prefix(s[0], p) {
        newest_matching(s.drop_first(), p).push(s[0])
    } else {
        newest_matching(s.drop_first(), p)
    }
}

/// At most `limit` elements after the first `skip`.
pub open spec fn window<A>(s: Seq<A>, skip: nat, limit: nat) -> Seq<A> {
    let lo = if skip < s.len() { skip as int } else { s.len() as int };
    let hi = if skip + limit < s.len() { (skip + limit) as int } else { s.len() as int };
    s.subrange(lo, hi)
}

/// Whether `a` sorts strictly before `b` in byte order.
pub fn lex_less(a: &[u8], b: &[u8]) -> (r: bool)
    ensures
        r == lex_lt(a@, b@),
{
    let mut i: usize = 0;
    assert(a@.skip(0) =~= a@);
    assert(b@.skip(0) =~= b@);
    while i < a.len() && i < b.len()
        invariant
            i <= a@.len(),
            i <= b@.len(),
            lex_lt(a@, b@) == lex_lt(a@.skip(i as int), b@.skip(i as int)),
        decreases a@.len() - i,
    {
        if a[i] != b[i] {
            return a[i] < b[i];
        }
        assert(a@.skip(i as int).drop_first() =~= a@.skip(i + 1));
        assert(b@.skip(i as int).drop_first() =~= b@.skip(i + 1));
        i = i + 1;
    }
    i < b.len()
}

/// Whether `a` and `b` hold the same bytes.
pub fn bytes_eq(a: &[u8], b: &[u8]) -> (r: bool)
    ensures
        r == (a@ == b@),
{
    if a.len() != b.len() {
        return false;
    }
    let mut i: usize = 0;
    while i < a.len()
        invariant
            i <= a@.len(),
            a@.len() == b@.len(),
            forall|j: int| 0 <= j < i ==> a@[j] == b@[j],
        decreases a@.len() - i,
    {
        if a[i] != b[i] {
            return false;
        }
        i = i + 1;
    }
    assert(a@ =~= b@);
    true
}

/// Whether `k` starts with `p`.
pub fn starts_with(k: &[u8], p: &[u8]) -> (r: bool)
    ensures
        r == has_prefix(k@, p@),
{
    if p.len() > k.len() {
        return false;
    }
    let mut i: usize = 0;
    while i < p.len()
        invariant
            i <= p@.len(),
            p@.len() <= k@.len(),
            forall|j: int| 0 <= j < i ==> k@[j] == p@[j],
        decreases p@.len() - i,
    {
        if k[i] != p[i] {
            assert(k@.subrange(0, p@.len() as int)[i as int] != p@[i as int]);
            return false;
        }
        i = i + 1;
    }
    assert(k@.subrange(0, p@.len() as int) =~= p@);
    true
}

/// A copy of `src`.
pub fn copy_bytes(src: &[u8]) -> (r: Vec<u8>)
    ensures
        r@ == src@,
{
    let mut r: Vec<u8> = Vec::new();
    let mut i: usize = 0;
    while i < src.len()
        invariant
            i <= src@.len(),
            r@ == src@.subrange(0, i as int),
        decreases src@.len() - i,
    {
        r.push(src[i]);
        i = i + 1;
        assert(src@.subrange(0, i as int) =~= src@.subrange(0, i - 1) + seq![src@[i - 1]]);
    }
    assert(src@.subrange(0, src@.len() as int) =~= src@);
    r
}

/// Puts `k` into the ascending key vector `v`, which keeps its order; a key
/// already there is not added twice.
pub fn insert_sorted(v: &mut Vec<Vec<u8>>, k: Vec<u8>)
    requires
        sorted(key_views(old(v)@)),
    ensures
        sorted(key_views(final(v)@)),
        forall|x: Seq<u8>| key_views(final(v)@).contains(x) <==> (key_views(old(v)@).contains(x) || x == k@),
        key_views(old(v)@).contains(k@) ==> final(v)@ == old(v)@,
{
    let ghost ov = key_views(v@);
    let mut p: usize = 0;
    while p < v.len() && lex_less(v[p].as_slice(), k.as_slice())
        invariant
            p <= v@.len(),
            v@ == old(v)@,
            ov == key_views(v@),
            forall|j: int| 0 <= j < p ==> lex_lt(#[trigger] ov[j], k@),
        decreases v@.len() - p,
    {
        p = p + 1;
    }
    if p < v.len() && bytes_eq(v[p].as_slice(), k.as_slice()) {
        assert(ov[p as int] == k@);
        assert(ov.contains(k@));
        return;
    }
    proof {
        if p < ov.len() {
            lemma_lex_total(ov[p as int], k@);
        }
        assert forall|j: int| p <= j < ov.len() implies lex_lt(k@, #[trigger] ov[j]) by {
            if j > p {
                lemma_lex_transitive(k@, ov[p as int], ov[j]);
            }
        }
        lemma_lex_irreflexive(k@);
        assert forall|j: int| 0 <= j < ov.len() implies ov[j] != k@ by {}
    }
    let ghost kv = k@;
    v.insert(p, k);
    let ghost nv = key_views(v@);
    assert(nv =~= ov.insert(p as int, kv));
    assert forall|i: int, j: int| 0 <= i < j < nv.len() implies lex_lt(#[trigger] nv[i], #[trigger] nv[j]) by {
        if i < p && j > p {
            lemma_lex_transitive(nv[i], kv, nv[j]);
        }
    }
    assert forall|x: Seq<u8>| nv.contains(x) <==> (ov.contains(x) || x == kv) by {
        if nv.contains(x) {
            let i = choose|i: int| 0 <= i < nv.len() && nv[i] == x;
            if i < p {
                assert(ov[i] == x);
            } else if i > p {
                assert(ov[i - 1] == x);
            }
        }
        if ov.contains(x) {
            let i = choose|i: int| 0 <= i < ov.len() && ov[i] == x;
            if i < p {
                assert(nv[i] == x);
            } else {
                assert(nv[i + 1] == x);
            }
        }
        if x == kv {
            assert(nv[p as int] == x);
        }
    }
}

proof fn lemma_matching_step(s: Seq<Seq<u8>>, p: Seq<u8>, i: int)
    requires
        0 < i <= s.len(),
    ensures
        newest_matching(s.subrange(i - 1, s.len() as int), p) == if has_prefix(s[i - 1], p) {
            newest_matching(s.subrange(i, s.len() as int), p).push(s[i - 1])
        } else {
            newest_matching(s.subrange(i, s.len() as int), p)
        },
{
    let t = s.subrange(i - 1, s.len() as int);
    assert(t.drop_first() =~= s.subrange(i, s.len() as int));
    assert(t[0] == s[i - 1]);
}

/// What a scan has gathered from the newest keys down to index `i` begins what a full scan gathers.
proof fn lemma_matching_prefix(s: Seq<Seq<u8>>, p: Seq<u8>, i: int)
    requires
        0 <= i <= s.len(),
    ensures
        newest_matching(s.subrange(i, s.len() as int), p).len() <= newest_matching(s, p).len(),
        forall|j: int|
            0 <= j < newest_matching(s.subrange(i, s.len() as int), p).len() ==> newest_matching(s, p)[j]
                == #[trigger] newest_matching(s.subrange(i, s.len() as int), p)[j],
    decreases i,
{
    if i == 0 {
        assert(s.subrange(0, s.len() as int) =~= s);
    } else {
        lemma_matching_prefix(s, p, i - 1);
        lemma_matching_step(s, p, i);
        let mi = newest_matching(s.subrange(i, s.len() as int), p);
        let mj = newest_matching(s.subrange(i - 1, s.len() as int), p);
        assert forall|j: int| 0 <= j < mi.len() implies newest_matching(s, p)[j] == #[trigger] mi[j] by {
            assert(mj[j] == mi[j]);
        }
    }
}

/// Up to `limit` of the keys of the ascending `keys` that start with `prefix`,
/// newest first, after passing over the `skip` newest of them.
pub fn scan_newest(keys: &Vec<Vec<u8>>, prefix: &[u8], skip: usize, limit: usize) -> (r: Vec<Vec<u8>>)
    ensures
        key_views(r@) == window(newest_matching(key_views(keys@), prefix@), skip as nat, limit as nat),
{
    let ghost kv = key_views(keys@);
    let ghost n = kv.len() as int;
    let mut out: Vec<Vec<u8>> = Vec::new();
    let mut seen: usize = 0;
    let mut i: usize = keys.len();
    assert(kv.subrange(n, n) =~= Seq::<Seq<u8>>::empty());
    assert(key_views(out@) =~= window(newest_matching(kv.subrange(i as int, n), prefix@), skip as nat, limit as nat));
    while i > 0
        invariant
            kv == key_views(keys@),
            n <= usize::MAX,
            n == kv.len(),
            i <= n,
            seen == newest_matching(kv.subrange(i as int, n), prefix@).len(),
            seen <= n - i,
            key_views(out@) == window(newest_matching(kv.subrange(i as int, n), prefix@), skip as nat, limit as nat),
        ensures
            i == 0 || (out@.len() >= limit && seen >= skip),
            i <= n,
            seen == newest_matching(kv.subrange(i as int, n), prefix@).len(),
            key_views(out@) == window(newest_matching(kv.subrange(i as int, n), prefix@), skip as nat, limit as nat),
        decreases i,
    {
        if out.len() >= limit && limit > 0 && seen >= skip {
            break;
        }
        let ghost m0 = newest_matching(kv.subrange(i as int, n), prefix@);
        proof {
            lemma_matching_step(kv, prefix@, i as int);
        }
        let k = &keys[i - 1];
        if starts_with(k.as_slice(), prefix) {
            let ghost m1 = m0.push(kv[i - 1]);
            if seen >= skip && seen - skip < limit {
                let c = copy_bytes(k.as_slice());
                let ghost before = key_views(out@);
                out.push(c);
                assert(key_views(out@) =~= before.push(kv[i - 1]));
                assert(before =~= m0.subrange(skip as int, seen as int));
                assert(key_views(out@) =~= window(m1, skip as nat, limit as nat));
            } else {
                assert(window(m1, skip as nat, limit as nat) =~= window(m0, skip as nat, limit as nat));
            }
            seen = seen + 1;
        }
        i = i - 1;
    }
    proof {
        lemma_matching_prefix(kv, prefix@, i as int);
        let m0 = newest_matching(kv.subrange(i as int, n), prefix@);
        let mall = newest_matching(kv, prefix@);
        if i == 0 {
            assert(kv.subrange(0, n) =~= kv);
        } else {
            assert(key_views(out@).len() == out@.len());
            assert(m0.len() >= skip + limit);
            assert forall|j: int| 0 <= j < limit implies #[trigger] window(mall, skip as nat, limit as nat)[j]
                == window(m0, skip as nat, limit as nat)[j] by {
                assert(mall[skip + j] == m0[skip + j]);
            }
            assert(window(mall, skip as nat, limit as nat) =~= window(m0, skip as nat, limit as nat));
        }
    }
    out
}

/// A newest-first match is a key of `s` that starts with `p`, and there are no more matches than keys.
pub proof fn lemma_matching_members(s: Seq<Seq<u8>>, p: Seq<u8>)
    ensures
        newest_matching(s, p).len() <= s.len(),
        forall|x: Seq<u8>| #[trigger] newest_matching(s, p).contains(x) ==> s.contains(x) && has_prefix(x, p),
    decreases s.len(),
{
    if s.len() > 0 {
        let rest = s.drop_first();
        lemma_matching_members(rest, p);
        assert forall|x: Seq<u8>| #[trigger] newest_matching(s, p).contains(x) implies s.contains(x) && has_prefix(x, p) by {
            if x == s[0] {
                assert(s[0] == x);
            } else {
                if has_prefix(s[0], p) {
                    let m = newest_matching(rest, p);
                    let j = choose|j: int| 0 <= j < m.push(s[0]).len() && #[trigger] m.push(s[0])[j] == x;
                    assert(m[j] == x);
                }
                assert(newest_matching(rest, p).contains(x));
                let j = choose|j: int| 0 <= j < rest.len() && #[trigger] rest[j] == x;
                assert(s[j + 1] == x);
            }
        }
    }
}

/// What a window holds, its sequence holds.
pub proof fn lemma_window_members<A>(s: Seq<A>, skip: nat, limit: nat)
    ensures
        window(s, skip, limit).len() <= limit,
        forall|x: A| #[trigger] window(s, skip, limit).contains(x) ==> s.contains(x),
{
    let w = window(s, skip, limit);
    assert forall|x: A| #[trigger] w.contains(x) implies s.contains(x) by {
        let j = choose|j: int| 0 <= j < w.len() && #[trigger] w[j] == x;
        let lo = if skip < s.len() { skip as int } else { s.len() as int };
        assert(s[lo + j] == x);
    }
}

/// Matches drawn from ascending keys come out in strictly descending order.
pub proof fn lemma_matching_descending(s: Seq<Seq<u8>>, p: Seq<u8>)
    requires
        sorted(s),
    ensures
        forall|i: int, j: int|
            0 <= i < j < newest_matching(s, p).len() ==> lex_lt(
                #[trigger] newest_matching(s, p)[j],
                #[trigger] newest_matching(s, p)[i],
            ),
    decreases s.len(),
{
    if s.len() > 0 {
        let rest = s.drop_first();
        assert(sorted(rest)) by {
            assert forall|i: int, j: int| 0 <= i < j < rest.len() implies lex_lt(#[trigger] rest[i], #[trigger] rest[j]) by {
                assert(s[i + 1] == rest[i] && s[j + 1] == rest[j]);
            }
        }
        lemma_matching_descending(rest, p);
        lemma_matching_members(rest, p);
        let m = newest_matching(rest, p);
        if has_prefix(s[0], p) {
            let mm = m.push(s[0]);
            assert forall|i: int, j: int| 0 <= i < j < mm.len() implies lex_lt(#[trigger] mm[j], #[trigger] mm[i]) by {
                if j == m.len() {
                    assert(m.contains(m[i]));
                    let q = choose|q: int| 0 <= q < rest.len() && #[trigger] rest[q] == m[i];
                    assert(s[q + 1] == m[i]);
                } else {
                    assert(mm[j] == m[j] && mm[i] == m[i]);
                }
            }
        }
    }
}

} // verus!
