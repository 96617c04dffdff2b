//! Composite keys and the key ranges that select all keys under a prefix.
//!
//! Multi-part identifiers are joined with `:`. Since `;` is the character
//! right after `:`, the half-open range `[p + ":", p + ";")` holds exactly
//! the keys that start with `p` followed by the delimiter.
use vstd::prelude::*;

use crate::error::CryptoStoreError;

verus! {

/// The delimiter between the parts of a composite key.
pub open spec fn delimiter() -> char {
    ':'
}

/// The character right after the delimiter, used as an exclusive upper bound.
pub open spec fn terminator() -> char {
    ';'
}

/// The key made of two parts.
pub open spec fn joined(a: Seq<char>, b: Seq<char>) -> Seq<char> {
    a + seq![delimiter()] + b
}

/// The key made of three parts.
pub open spec fn joined3(a: Seq<char>, b: Seq<char>, c: Seq<char>) -> Seq<char> {
    joined(joined(a, b), c)
}

/// Strict lexicographic order on character sequences, by code point.
pub open spec fn lex_lt(a: Seq<char>, b: Seq<char>) -> bool
    decreases a.len(),
{
    if b.len() == 0 {
        false
    } else if a.len() == 0 {
        true
    } else if a[0] != b[0] {
        (a[0] as int) < (b[0] as int)
    } else {
        lex_lt(a.drop_first(), b.drop_first())
    }
}

/// A half-open interval `[lower, upper)` of keys.
pub struct KeyRange {
    pub lower: String,
    pub upper: String,
}

/// Whether `k` lies in `[lo, hi)`.
pub open spec fn in_range(k: Seq<char>, lo: Seq<char>, hi: Seq<char>) -> bool {
    !lex_lt(k, lo) && lex_lt(k, hi)
}

/// Whether `k` starts with `p` followed by the delimiter.
pub open spec fn has_prefix_part(k: Seq<char>, p: Seq<char>) -> bool {
    k.len() > p.len() && k.subrange(0, p.len() as int) == p && k[p.len() as int] == delimiter()
}

/// The lower bound of the range of keys under `p`.
pub open spec fn range_lower(p: Seq<char>) -> Seq<char> {
    p.push(delimiter())
}

/// The upper bound of the range of keys under `p`.
pub open spec fn range_upper(p: Seq<char>) -> Seq<char> {
    p.push(terminator())
}

/// The range `[p + ":", p + ";")` holds exactly the keys that start with `p`
/// followed by the delimiter: a key under an identifier that merely extends
/// `p` (such as `p + "d:..."`) is never in it.
pub proof fn lemma_range_is_prefix(k: Seq<char>, p: Seq<char>)
    ensures
        in_range(k, range_lower(p), range_upper(p)) == has_prefix_part(k, p),
    decreases p.len(),
{
    let lo = range_lower(p);
    let hi = range_upper(p);
    if p.len() == 0 {
        assert(lo =~= seq![':']);
        assert(hi =~= seq![';']);
        if k.len() > 0 {
            assert(k.subrange(0, 0) =~= p);
            if k[0] == ':' {
                assert(lo.drop_first() =~= Seq::<char>::empty());
                assert(!lex_lt(k.drop_first(), lo.drop_first()));
                assert(!lex_lt(k, lo));
                assert(lex_lt(k, hi));
            } else if k[0] == ';' {
                assert(hi.drop_first() =~= Seq::<char>::empty());
                assert(!lex_lt(k.drop_first(), hi.drop_first()));
                assert(!lex_lt(k, hi));
            } else if (k[0] as int) < (':' as int) {
                assert(lex_lt(k, lo));
            } else {
                assert((':' as int) == 58);
                assert((';' as int) == 59);
                assert(hi[0] == ';');
                assert(k[0] != ';' ==> (k[0] as int) != 59);
                assert(!lex_lt(k, hi));
            }
        } else {
            assert(lex_lt(k, lo));
        }
    } else {
        if k.len() > 0 && k[0] == p[0] {
            lemma_range_is_prefix(k.drop_first(), p.drop_first());
            assert(lo.drop_first() =~= range_lower(p.drop_first()));
            assert(hi.drop_first() =~= range_upper(p.drop_first()));
            if has_prefix_part(k, p) {
                assert(k.drop_first().subrange(0, p.len() - 1) =~= k.subrange(0, p.len() as int).drop_first());
            }
            if has_prefix_part(k.drop_first(), p.drop_first()) {
                assert(k.subrange(0, p.len() as int) =~= seq![k[0]] + k.drop_first().subrange(0, p.len() - 1));
                assert(p =~= seq![p[0]] + p.drop_first());
            }
        } else if k.len() > 0 {
            assert(lo[0] == p[0]);
            assert(hi[0] == p[0]);
            if k.len() > p.len() {
                assert(k.subrange(0, p.len() as int)[0] == k[0]);
            }
            assert(!in_range(k, lo, hi));
        } else {
            assert(lex_lt(k, lo));
        }
    }
}

/// Two-part keys under `a` are in the range of `a`.
pub proof fn lemma_joined_in_range(a: Seq<char>, b: Seq<char>)
    ensures
        in_range(joined(a, b), range_lower(a), range_upper(a)),
{
    let k = joined(a, b);
    assert(k.subrange(0, a.len() as int) =~= a);
    assert(k[a.len() as int] == delimiter());
    lemma_range_is_prefix(k, a);
}

/// Builds the key `a:b`.
pub fn join_key(a: &str, b: &str) -> (r: String)
    ensures
        r@ == joined(a@, b@),
{
    let mut s = a.to_owned();
    let sep = ":";
    proof {
        reveal_strlit(":");
    }
    s.append(sep);
    s.append(b);
    proof {
        assert(s@ =~= joined(a@, b@));
    }
    s
}

/// Builds the key `a:b:c`.
pub fn join_key3(a: &str, b: &str, c: &str) -> (r: String)
    ensures
        r@ == joined3(a@, b@, c@),
{
    let ab = join_key(a, b);
    join_key(ab.as_str(), c)
}

/// Strict lexicographic comparison of two strings by code point.
pub fn lex_less(a: &str, b: &str) -> (r: bool)
    ensures
        r == lex_lt(a@, b@),
{
    let alen = a.unicode_len();
    let blen = b.unicode_len();
    let mut i: usize = 0;
    assert(a@.skip(0) =~= a@);
    assert(b@.skip(0) =~= b@);
    while i < alen && i < blen
        invariant
            alen == a@.len(),
            blen == b@.len(),
            i <= alen,
            i <= blen,
            lex_lt(a@, b@) == lex_lt(a@.skip(i as int), b@.skip(i as int)),
        decreases alen - i,
    {
        let ca = a.get_char(i);
        let cb = b.get_char(i);
        assert(a@.skip(i as int)[0] == ca);
        assert(b@.skip(i as int)[0] == cb);
        if ca != cb {
            return (ca as u32) < (cb as u32);
        }
        assert(a@.skip(i as int).drop_first() =~= a@.skip(i + 1));
        assert(b@.skip(i as int).drop_first() =~= b@.skip(i + 1));
        i = i + 1;
    }
    i < blen
}

/// Whether `k` lies in the range `r`.
pub fn key_in_range(k: &str, r: &KeyRange) -> (b: bool)
    ensures
        b == in_range(k@, r.lower@, r.upper@),
{
    !lex_less(k, r.lower.as_str()) && lex_less(k, r.upper.as_str())
}

/// The range `[key + ":", key + ";")` of all composite keys whose first part
/// is `key`. The bounds are checked to be ordered before use, as a backing
/// engine would; an unordered pair is a `KeyRangeError`.
pub fn make_range(key: &str) -> (r: Result<KeyRange, CryptoStoreError>)
    ensures
        r matches Ok(kr) && kr.lower@ == range_lower(key@) && kr.upper@ == range_upper(key@),
{
    let mut lower = key.to_owned();
    let mut upper = key.to_owned();
    proof {
        reveal_strlit(":");
        reveal_strlit(";");
    }
    lower.append(":");
    upper.append(";");
    proof {
        assert(lower@ =~= range_lower(key@));
        assert(upper@ =~= range_upper(key@));
        lemma_bounds_ordered(key@);
    }
    if lex_less(upper.as_str(), lower.as_str()) {
        return Err(CryptoStoreError::KeyRangeError);
    }
    Ok(KeyRange { lower, upper })
}

proof fn lemma_bounds_ordered(p: Seq<char>)
    ensures
        !lex_lt(range_upper(p), range_lower(p)),
    decreases p.len(),
{
    if p.len() > 0 {
        assert(range_upper(p).drop_first() =~= range_upper(p.drop_first()));
        assert(range_lower(p).drop_first() =~= range_lower(p.drop_first()));
        lemma_bounds_ordered(p.drop_first());
    }
}

/// A scan for the keys under `k` never reaches a record filed under an
/// identifier that merely extends `k` (such as `k + "d"` when `k` is
/// `"abc"`): its key differs from `k + ":"` at the delimiter.
pub proof fn lemma_scan_excludes_extensions(k: Seq<char>, other: Seq<char>, id: Seq<char>)
    requires
        other.len() > k.len(),
        other.subrange(0, k.len() as int) == k,
        other[k.len() as int] != delimiter(),
    ensures
        !in_range(joined(other, id), range_lower(k), range_upper(k)),
{
    let key = joined(other, id);
    assert(key[k.len() as int] == other[k.len() as int]);
    lemma_range_is_prefix(key, k);
}

} // verus!
