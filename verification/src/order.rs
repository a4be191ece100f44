//! Byte-wise lexicographic order on ids, used to keep the store's keys
//! sorted and to answer prefix queries.

use vstd::prelude::*;
use vstd::utf8::encode_utf8;

verus! {

/// The key of an id is its UTF-8 encoding; ids are ordered by byte value.
pub open spec fn key_of(s: Seq<char>) -> Seq<u8> {
    encode_utf8(s)
}

/// Strict lexicographic order on byte sequences: the empty sequence comes
/// first, and otherwise the first differing byte decides.
pub open spec fn lex_lt(a: Seq<u8>, b: Seq<u8>) -> bool
    decreases a.len(),
{
    if b.len() == 0 {
        false
    } else if a.len() == 0 {
        true
    } else if a[0] != b[0] {
        a[0] < b[0]
    } else {
        lex_lt(a.skip(1), b.skip(1))
    }
}

pub proof fn lemma_lex_irrefl(a: Seq<u8>)
    ensures
        !lex_lt(a, a),
    decreases a.len(),
{
    if a.len() > 0 {
        lemma_lex_irrefl(a.skip(1));
    }
}

pub proof fn lemma_lex_trans(a: Seq<u8>, b: Seq<u8>, c: Seq<u8>)
    requires
        lex_lt(a, b),
        lex_lt(b, c),
    ensures
        lex_lt(a, c),
    decreases a.len() + b.len() + c.len(),
{
    if c.len() == 0 {
        // lex_lt(b, c) is false: contradiction.
    } else if a.len() == 0 {
        // lex_lt(a, c) holds outright.
    } else {
        // a and c are non-empty; b is non-empty since lex_lt(a, b) holds.
        if a[0] == b[0] && b[0] == c[0] {
            lemma_lex_trans(a.skip(1), b.skip(1), c.skip(1));
        }
    }
}

/// Two sequences that agree on their first `i` elements compare the same
/// way as their tails from `i` on.
pub proof fn lemma_lex_common_prefix(a: Seq<u8>, b: Seq<u8>, i: int)
    requires
        0 <= i <= a.len(),
        i <= b.len(),
        forall|k: int| 0 <= k < i ==> a[k] == b[k],
    ensures
        lex_lt(a, b) == lex_lt(a.skip(i), b.skip(i)),
    decreases i,
{
    if i == 0 {
        assert(a.skip(0) =~= a);
        assert(b.skip(0) =~= b);
    } else {
        assert(a[0] == b[0]);
        lemma_lex_common_prefix(a.skip(1), b.skip(1), i - 1);
        assert(a.skip(1).skip(i - 1) =~= a.skip(i));
        assert(b.skip(1).skip(i - 1) =~= b.skip(i));
    }
}

/// The three-way result of comparing two keys.
pub enum KeyOrder {
    Less,
    Equal,
    Greater,
}

/// Three-way byte-wise comparison of two keys.
pub fn cmp_bytes(a: &[u8], b: &[u8]) -> (r: KeyOrder)
    ensures
        (r is Less) == lex_lt(a@, b@),
        (r is Equal) == (a@ == b@),
        (r is Greater) == lex_lt(b@, a@),
{
    let alen = a.len();
    let blen = b.len();
    let mut i: usize = 0;
    loop
        invariant
            i <= alen,
            i <= blen,
            alen == a@.len(),
            blen == b@.len(),
            forall|k: int| 0 <= k < i ==> a@[k] == b@[k],
        decreases alen - i,
    {
        proof {
            lemma_lex_common_prefix(a@, b@, i as int);
            lemma_lex_common_prefix(b@, a@, i as int);
        }
        if i == alen && i == blen {
            assert(a@ =~= b@);
            proof {
                lemma_lex_irrefl(a@);
            }
            return KeyOrder::Equal;
        }
        if i == alen {
            // a is a strict prefix of b.
            assert(lex_lt(a@, b@));
            assert(a@.len() != b@.len());
            return KeyOrder::Less;
        }
        if i == blen {
            assert(lex_lt(b@, a@));
            assert(a@.len() != b@.len());
            return KeyOrder::Greater;
        }
        let x = *vstd::slice::slice_index_get(a, i);
        let y = *vstd::slice::slice_index_get(b, i);
        if x < y {
            assert(lex_lt(a@.skip(i as int), b@.skip(i as int)));
            assert(a@[i as int] != b@[i as int]);
            return KeyOrder::Less;
        }
        if y < x {
            assert(lex_lt(b@.skip(i as int), a@.skip(i as int)));
            assert(a@[i as int] != b@[i as int]);
            return KeyOrder::Greater;
        }
        i = i + 1;
    }
}

/// Whether `p` is a byte-wise prefix of `s`.
pub fn starts_with_bytes(s: &[u8], p: &[u8]) -> (r: bool)
    ensures
        r == p@.is_prefix_of(s@),
{
    let plen = p.len();
    let slen = s.len();
    if plen > slen {
        return false;
    }
    let mut i: usize = 0;
    while i < plen
        invariant
            i <= plen,
            plen == p@.len(),
            slen == s@.len(),
            plen <= slen,
            forall|k: int| 0 <= k < i ==> s@[k] == p@[k],
        decreases plen - i,
    {
        let x = *vstd::slice::slice_index_get(s, i);
        let y = *vstd::slice::slice_index_get(p, i);
        if x != y {
            assert(!p@.is_prefix_of(s@)) by {
                assert(s@.subrange(0, plen as int)[i as int] == s@[i as int]);
            }
            return false;
        }
        i = i + 1;
    }
    assert(p@ =~= s@.subrange(0, plen as int));
    true
}

} // verus!
