use vstd::prelude::*;
use vstd::string::StringSliceAdditionalSpecFns;
use crate::order::{lemma_lex_asymmetric, lemma_lex_irreflexive, lemma_lex_split, be_bytes, lemma_be_len, lemma_be_order, lemma_lex_append, lemma_lex_common_prefix, lemma_pow256_positive, lex_lt, pow256};
use crate::timestamp::{parse_seconds, parsed_seconds};

verus! {

/// The byte that ends the tag in a tag-index key (`|`).
pub const SEP: u8 = 124;

/// Width of the encoded timestamp.
pub const STAMP_LEN: usize = 8;

/// Errors of the archive layer.
#[derive(Debug, Clone, Copy, PartialEq, Eq, Structural)]
pub enum ArchiveError {
    /// A key too short to hold its fixed-width part.
    MalformedKey,
    /// A tag holding the separator byte or a NUL byte.
    InvalidTag,
    /// A publish time that does not parse as an instant.
    MalformedTimestamp,
    /// The storage engine failed.
    StorageUnavailable,
    /// An index entry whose item is missing from the content store.
    ConsistencyViolation,
}

/// The seconds as the unsigned 64-bit word that `i64::to_be_bytes` writes out.
pub open spec fn seconds_word(t: i64) -> nat {
    if t >= 0 {
        t as nat
    } else {
        (t + 0x1_0000_0000_0000_0000) as nat
    }
}

pub open spec fn be_seconds(t: i64) -> Seq<u8> {
    be_bytes(seconds_word(t), 8)
}

/// Chronological-index key: eight big-endian bytes of the seconds, then the id.
pub open spec fn chrono_key(t: i64, id: Seq<u8>) -> Seq<u8> {
    be_seconds(t) + id
}

/// What every tag-index key of `tag` starts with.
pub open spec fn tag_prefix(tag: Seq<u8>) -> Seq<u8> {
    tag.push(SEP)
}

/// Tag-index key: the tag, the separator, then the chronological key.
pub open spec fn tag_index_key(tag: Seq<u8>, t: i64, id: Seq<u8>) -> Seq<u8> {
    tag_prefix(tag) + chrono_key(t, id)
}

/// A tag that can stand in a key: no separator byte and no NUL byte.
pub open spec fn valid_tag(tag: Seq<u8>) -> bool {
    forall|i: int| 0 <= i < tag.len() ==> #[trigger] tag[i] != SEP && tag[i] != 0
}

proof fn lemma_pow256_values()
    ensures
        pow256(7) == 0x100_0000_0000_0000,
        pow256(8) == 0x1_0000_0000_0000_0000,
{
    reveal_with_fuel(pow256, 9);
}

pub proof fn lemma_be_seconds_len(t: i64)
    ensures
        be_seconds(t).len() == 8,
{
    lemma_be_len(seconds_word(t), 8);
}

/// Decoding a chronological key gives back its id.
pub proof fn lemma_chrono_round_trip(t: i64, id: Seq<u8>)
    ensures
        chrono_key(t, id).len() >= 8,
        chrono_key(t, id).skip(8) == id,
{
    lemma_be_seconds_len(t);
    assert(chrono_key(t, id).skip(8) =~= id);
}

/// Decoding a tag key at the tag's length gives back its id.
pub proof fn lemma_tag_round_trip(tag: Seq<u8>, t: i64, id: Seq<u8>)
    ensures
        tag_index_key(tag, t, id).len() >= tag.len() + 9,
        tag_index_key(tag, t, id).skip(tag.len() as int + 9) == id,
{
    lemma_be_seconds_len(t);
    assert(tag_index_key(tag, t, id).skip(tag.len() as int + 9) =~= id);
}

/// An earlier instant gives a chronological key that sorts first, whatever
/// the ids; this holds unless the earlier instant is before the epoch and
/// the later one is not (a negative `i64` is written with its top bit set).
pub proof fn lemma_chrono_order(ta: i64, ida: Seq<u8>, tb: i64, idb: Seq<u8>)
    requires
        ta < tb,
        ta >= 0 || tb < 0,
    ensures
        lex_lt(chrono_key(ta, ida), chrono_key(tb, idb)),
{
    lemma_pow256_values();
    lemma_be_order(seconds_word(ta), seconds_word(tb), 8);
    lemma_be_seconds_len(ta);
    lemma_be_seconds_len(tb);
    lemma_lex_append(be_seconds(ta), be_seconds(tb), ida, idb);
}

/// The same order holds among the keys of one tag.
pub proof fn lemma_tag_order(tag: Seq<u8>, ta: i64, ida: Seq<u8>, tb: i64, idb: Seq<u8>)
    requires
        ta < tb,
        ta >= 0 || tb < 0,
    ensures
        lex_lt(tag_index_key(tag, ta, ida), tag_index_key(tag, tb, idb)),
{
    lemma_chrono_order(ta, ida, tb, idb);
    lemma_lex_common_prefix(tag_prefix(tag), chrono_key(ta, ida), chrono_key(tb, idb));
}

/// Of two chronological keys in descending byte order, the first is the
/// newer, or as new with the greater id (for instants on the same side of
/// the epoch, or the first one after it).
pub proof fn lemma_chrono_desc(ti: i64, idi: Seq<u8>, tj: i64, idj: Seq<u8>)
    requires
        lex_lt(chrono_key(tj, idj), chrono_key(ti, idi)),
        ti >= 0 || tj < 0,
    ensures
        tj < ti || (tj == ti && lex_lt(idj, idi)),
{
    lemma_be_seconds_len(ti);
    lemma_be_seconds_len(tj);
    lemma_lex_split(be_seconds(tj), be_seconds(ti), idj, idi);
    if ti < tj {
        lemma_chrono_order(ti, idi, tj, idj);
        lemma_lex_asymmetric(chrono_key(ti, idi), chrono_key(tj, idj));
    } else if ti == tj {
        lemma_lex_irreflexive(be_seconds(ti));
    }
}

/// The same holds of two tag keys of one tag.
pub proof fn lemma_tag_desc(tag: Seq<u8>, ti: i64, idi: Seq<u8>, tj: i64, idj: Seq<u8>)
    requires
        lex_lt(tag_index_key(tag, tj, idj), tag_index_key(tag, ti, idi)),
        ti >= 0 || tj < 0,
    ensures
        tj < ti || (tj == ti && lex_lt(idj, idi)),
{
    lemma_lex_common_prefix(tag_prefix(tag), chrono_key(tj, idj), chrono_key(ti, idi));
    lemma_chrono_desc(ti, idi, tj, idj);
}

/// Appends `src` to `out`.
pub fn append_bytes(out: &mut Vec<u8>, src: &[u8])
    ensures
        final(out)@ == old(out)@ + src@,
{
    let mut i: usize = 0;
    while i < src.len()
        invariant
            i <= src@.len(),
            out@ == old(out)@ + src@.subrange(0, i as int),
        decreases src@.len() - i,
    {
        out.push(src[i]);
        i = i + 1;
        assert(src@.subrange(0, i as int) =~= src@.subrange(0, i - 1) + seq![src@[i - 1]]);
    }
    assert(src@.subrange(0, src@.len() as int) =~= src@);
}

/// The bytes of `src` from `start` on.
pub fn copy_from(src: &[u8], start: usize) -> (r: Vec<u8>)
    requires
        start <= src@.len(),
    ensures
        r@ == src@.skip(start as int),
{
    let mut r: Vec<u8> = Vec::new();
    let mut i: usize = start;
    while i < src.len()
        invariant
            start <= i <= src@.len(),
            r@ == src@.subrange(start as int, i as int),
        decreases src@.len() - i,
    {
        r.push(src[i]);
        i = i + 1;
        assert(src@.subrange(start as int, i as int) =~= src@.subrange(start as int, i - 1) + seq![src@[i - 1]]);
    }
    assert(src@.subrange(start as int, src@.len() as int) =~= src@.skip(start as int));
    r
}

/// The eight big-endian bytes of the seconds, as `i64::to_be_bytes` gives them.
pub fn encode_be_seconds(t: i64) -> (r: Vec<u8>)
    ensures
        r@ == be_seconds(t),
        r@.len() == 8,
{
    let u: u64 = if t >= 0 {
        t as u64
    } else {
        u64::MAX - ((-(t + 1)) as u64)
    };
    proof {
        lemma_pow256_values();
        lemma_be_seconds_len(t);
    }
    let mut out: Vec<u8> = Vec::new();
    let mut rem: u64 = u;
    let mut p: u64 = 0x100_0000_0000_0000;
    let mut n: usize = 8;
    assert(out@ + be_bytes(rem as nat, 8) =~= be_bytes(seconds_word(t), 8));
    while n > 0
        invariant
            n <= 8,
            n > 0 ==> p == pow256((n - 1) as nat),
            rem < pow256(n as nat),
            out@ + be_bytes(rem as nat, n as nat) == be_seconds(t),
        decreases n,
    {
        let m: Ghost<nat> = Ghost((n - 1) as nat);
        proof {
            lemma_pow256_positive(m@);
            assert(pow256(n as nat) == 256 * pow256(m@));
        }
        let d: u64 = rem / p;
        assert(d < 256) by (nonlinear_arith)
            requires d == rem / p, rem < 256 * p, p > 0;
        let r2: u64 = rem % p;
        proof {
            assert(be_bytes(rem as nat, n as nat) == seq![(rem / p) as u8] + be_bytes(r2 as nat, m@));
            assert(out@.push(d as u8) + be_bytes(r2 as nat, m@) =~= out@ + be_bytes(rem as nat, n as nat));
        }
        out.push(d as u8);
        rem = r2;
        n = n - 1;
        if n > 0 {
            proof {
                assert(pow256(m@) == 256 * pow256((m@ - 1) as nat));
                lemma_pow256_positive((m@ - 1) as nat);
            }
            assert(p / 256 == pow256((n - 1) as nat)) by (nonlinear_arith)
                requires p == 256 * pow256((n - 1) as nat);
            p = p / 256;
        }
    }
    assert(out@ =~= out@ + be_bytes(rem as nat, 0));
    out
}

/// Chronological-index key of an item.
pub fn encode_chrono_key(publish_time: i64, id: &str) -> (r: Vec<u8>)
    ensures
        r@ == chrono_key(publish_time, id.spec_bytes()),
{
    encode_chrono_key_bytes(publish_time, id.as_bytes())
}

/// Chronological-index key from the bytes of an id.
pub fn encode_chrono_key_bytes(publish_time: i64, id: &[u8]) -> (r: Vec<u8>)
    ensures
        r@ == chrono_key(publish_time, id@),
{
    let mut key = encode_be_seconds(publish_time);
    append_bytes(&mut key, id);
    key
}

/// The id bytes of a chronological key.
pub fn decode_chrono_key(key: &[u8]) -> (r: Result<Vec<u8>, ArchiveError>)
    ensures
        key@.len() < 8 ==> r == Err::<Vec<u8>, ArchiveError>(ArchiveError::MalformedKey),
        key@.len() >= 8 ==> r.is_ok() && r.unwrap()@ == key@.skip(8),
{
    if key.len() < STAMP_LEN {
        Err(ArchiveError::MalformedKey)
    } else {
        Ok(copy_from(key, STAMP_LEN))
    }
}

/// Whether `tag` can stand in a tag-index key.
pub fn is_valid_tag(tag: &[u8]) -> (r: bool)
    ensures
        r == valid_tag(tag@),
{
    let mut i: usize = 0;
    while i < tag.len()
        invariant
            i <= tag@.len(),
            forall|j: int| 0 <= j < i ==> #[trigger] tag@[j] != SEP && tag@[j] != 0,
        decreases tag@.len() - i,
    {
        if tag[i] == SEP || tag[i] == 0 {
            return false;
        }
        i = i + 1;
    }
    true
}

/// The prefix shared by every key of `tag` in the tag index.
pub fn encode_tag_prefix(tag: &[u8]) -> (r: Vec<u8>)
    ensures
        r@ == tag_prefix(tag@),
{
    let mut key: Vec<u8> = Vec::new();
    append_bytes(&mut key, tag);
    key.push(SEP);
    assert(key@ =~= tag_prefix(tag@));
    key
}

/// Tag-index key from the bytes of a tag and an id.
pub fn encode_tag_key_bytes(tag: &[u8], publish_time: i64, id: &[u8]) -> (r: Result<Vec<u8>, ArchiveError>)
    ensures
        !valid_tag(tag@) ==> r == Err::<Vec<u8>, ArchiveError>(ArchiveError::InvalidTag),
        valid_tag(tag@) ==> r.is_ok() && r.unwrap()@ == tag_index_key(tag@, publish_time, id@),
{
    if !is_valid_tag(tag) {
        return Err(ArchiveError::InvalidTag);
    }
    let mut key = encode_tag_prefix(tag);
    let stamp = encode_be_seconds(publish_time);
    append_bytes(&mut key, stamp.as_slice());
    append_bytes(&mut key, id);
    assert(key@ =~= tag_index_key(tag@, publish_time, id@));
    Ok(key)
}

/// Tag-index key of an item under one of its tags.
pub fn encode_tag_key(tag: &str, publish_time: i64, id: &str) -> (r: Result<Vec<u8>, ArchiveError>)
    ensures
        !valid_tag(tag.spec_bytes()) ==> r == Err::<Vec<u8>, ArchiveError>(ArchiveError::InvalidTag),
        valid_tag(tag.spec_bytes()) ==> r.is_ok() && r.unwrap()@ == tag_index_key(tag.spec_bytes(), publish_time, id.spec_bytes()),
{
    encode_tag_key_bytes(tag.as_bytes(), publish_time, id.as_bytes())
}

/// The id bytes of a tag-index key whose tag is `tag_len` bytes long.
pub fn decode_tag_key(key: &[u8], tag_len: usize) -> (r: Result<Vec<u8>, ArchiveError>)
    ensures
        key@.len() < tag_len + 9 ==> r == Err::<Vec<u8>, ArchiveError>(ArchiveError::MalformedKey),
        key@.len() >= tag_len + 9 ==> r.is_ok() && r.unwrap()@ == key@.skip(tag_len + 9),
{
    if key.len() < STAMP_LEN + 1 || key.len() - (STAMP_LEN + 1) < tag_len {
        Err(ArchiveError::MalformedKey)
    } else {
        Ok(copy_from(key, tag_len + STAMP_LEN + 1))
    }
}

/// Tag-index key from a tag path, an item id and the item's ISO-8601 publish
/// time. A tag that cannot stand in a key is refused first, whatever the time.
pub fn tag_key(tag_path: &str, website_url: &str, display_date: &str) -> (r: Result<Vec<u8>, ArchiveError>)
    ensures
        !valid_tag(tag_path.spec_bytes()) ==> r == Err::<Vec<u8>, ArchiveError>(ArchiveError::InvalidTag),
        valid_tag(tag_path.spec_bytes()) && parsed_seconds(display_date@) is None
            ==> r == Err::<Vec<u8>, ArchiveError>(ArchiveError::MalformedTimestamp),
        valid_tag(tag_path.spec_bytes()) && parsed_seconds(display_date@) is Some ==> r.is_ok()
            && r.unwrap()@ == tag_index_key(tag_path.spec_bytes(), parsed_seconds(display_date@).unwrap(), website_url.spec_bytes()),
{
    if !is_valid_tag(tag_path.as_bytes()) {
        return Err(ArchiveError::InvalidTag);
    }
    match parse_seconds(display_date) {
        None => Err(ArchiveError::MalformedTimestamp),
        Some(t) => encode_tag_key(tag_path, t, website_url),
    }
}

/// The tag of a tag key is the one tag whose prefix the key starts with.
pub proof fn lemma_tag_prefix_unique(a: Seq<u8>, b: Seq<u8>, t: i64, id: Seq<u8>)
    requires
        valid_tag(a),
        valid_tag(b),
        tag_prefix(a).len() <= tag_index_key(b, t, id).len(),
        tag_index_key(b, t, id).subrange(0, tag_prefix(a).len() as int) == tag_prefix(a),
    ensures
        a == b,
{
    let k = tag_index_key(b, t, id);
    let pa = tag_prefix(a);
    assert(k[b.len() as int] == SEP);
    assert forall|i: int| 0 <= i < b.len() implies k[i] == b[i] by {}
    if a.len() < b.len() {
        assert(k[a.len() as int] == pa[a.len() as int]);
        assert(b[a.len() as int] != SEP);
    } else if a.len() > b.len() {
        assert(k[b.len() as int] == pa[b.len() as int]);
        assert(a[b.len() as int] != SEP);
    } else {
        assert forall|i: int| 0 <= i < a.len() implies a[i] == b[i] by {
            assert(k[i] == pa[i]);
        }
        assert(a =~= b);
    }
}

} // verus!
