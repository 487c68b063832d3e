//! Lexicographic ordering of strings, as the store's listings use it.
//!
//! Listings are ordered by the UTF-8 bytes of the strings (bytewise
//! comparison), which coincides with ordering by Unicode code point. The
//! executable comparisons work on byte vectors and are proved against the
//! recursive specification.

use vstd::prelude::*;
use vstd::utf8::{decode_utf8, encode_utf8, encode_utf8_decode_utf8};

verus! {

/// Bytewise lexicographic `<=` on byte sequences.
pub open spec fn lex_le(a: Seq<u8>, b: Seq<u8>) -> bool
    decreases a.len(),
{
    if a.len() == 0 {
        true
    } else if b.len() == 0 {
        false
    } else if a[0] < b[0] {
        true
    } else if a[0] > b[0] {
        false
    } else {
        lex_le(a.drop_first(), b.drop_first())
    }
}

/// `<=` on strings: bytewise comparison of their UTF-8 encodings.
pub open spec fn str_le(a: Seq<char>, b: Seq<char>) -> bool {
    lex_le(encode_utf8(a), encode_utf8(b))
}

/// Strict `<` on strings.
pub open spec fn str_lt(a: Seq<char>, b: Seq<char>) -> bool {
    str_le(a, b) && a != b
}

/// UTF-8 encoding is injective, so equal encodings mean equal strings.
pub proof fn lemma_encode_utf8_injective(a: Seq<char>, b: Seq<char>)
    requires
        encode_utf8(a) == encode_utf8(b),
    ensures
        a == b,
{
    encode_utf8_decode_utf8(a);
    encode_utf8_decode_utf8(b);
    assert(a == decode_utf8(encode_utf8(a)));
}

/// `lex_le` is total: any two byte sequences are comparable.
pub proof fn lemma_lex_le_total(a: Seq<u8>, b: Seq<u8>)
    ensures
        lex_le(a, b) || lex_le(b, a),
    decreases a.len(),
{
    if a.len() != 0 && b.len() != 0 && a[0] == b[0] {
        lemma_lex_le_total(a.drop_first(), b.drop_first());
    }
}

/// `lex_le` is antisymmetric: mutual `<=` forces equality.
pub proof fn lemma_lex_le_antisymmetric(a: Seq<u8>, b: Seq<u8>)
    requires
        lex_le(a, b),
        lex_le(b, a),
    ensures
        a == b,
    decreases a.len(),
{
    if a.len() == 0 {
        assert(b.len() == 0);
        assert(a =~= b);
    } else {
        lemma_lex_le_antisymmetric(a.drop_first(), b.drop_first());
        assert(a =~= seq![a[0]] + a.drop_first());
        assert(b =~= seq![b[0]] + b.drop_first());
    }
}

/// `lex_le` is transitive.
pub proof fn lemma_lex_le_transitive(a: Seq<u8>, b: Seq<u8>, c: Seq<u8>)
    requires
        lex_le(a, b),
        lex_le(b, c),
    ensures
        lex_le(a, c),
    decreases a.len(),
{
    if a.len() != 0 && b.len() != 0 && c.len() != 0 && a[0] == b[0] && b[0] == c[0] {
        lemma_lex_le_transitive(a.drop_first(), b.drop_first(), c.drop_first());
    }
}

/// `str_lt` is transitive.
pub proof fn lemma_str_lt_transitive(a: Seq<char>, b: Seq<char>, c: Seq<char>)
    requires
        str_lt(a, b),
        str_lt(b, c),
    ensures
        str_lt(a, c),
{
    lemma_lex_le_transitive(encode_utf8(a), encode_utf8(b), encode_utf8(c));
    if a == c {
        lemma_lex_le_antisymmetric(encode_utf8(a), encode_utf8(b));
        lemma_encode_utf8_injective(a, b);
    }
}

/// Strings are totally ordered by `str_lt`: exactly one of `<`, `==`, `>` holds.
pub proof fn lemma_str_lt_trichotomy(a: Seq<char>, b: Seq<char>)
    ensures
        str_lt(a, b) || a == b || str_lt(b, a),
        str_lt(a, b) ==> a != b && !str_lt(b, a),
{
    lemma_lex_le_total(encode_utf8(a), encode_utf8(b));
    if str_le(a, b) && str_le(b, a) {
        lemma_lex_le_antisymmetric(encode_utf8(a), encode_utf8(b));
        lemma_encode_utf8_injective(a, b);
    }
}

/// If the first `i` bytes agree, the comparison is decided by the tails.
proof fn lemma_lex_le_common_prefix(a: Seq<u8>, b: Seq<u8>, i: int)
    requires
        0 <= i <= a.len(),
        0 <= i <= b.len(),
        forall|k: int| 0 <= k < i ==> a[k] == b[k],
    ensures
        lex_le(a, b) == lex_le(a.skip(i), b.skip(i)),
    decreases i,
{
    if i == 0 {
        assert(a.skip(0) =~= a);
        assert(b.skip(0) =~= b);
    } else if a.len() != 0 && b.len() != 0 {
        assert(a[0] == b[0]);
        assert(a.drop_first().skip(i - 1) =~= a.skip(i));
        assert(b.drop_first().skip(i - 1) =~= b.skip(i));
        lemma_lex_le_common_prefix(a.drop_first(), b.drop_first(), i - 1);
    }
}

/// Compares two strings bytewise, deciding `str_le`.
pub fn str_le_exec(a: &str, b: &str) -> (r: bool)
    ensures
        r == str_le(a@, b@),
{
    let av = a.as_bytes_vec();
    let bv = b.as_bytes_vec();
    let mut i: usize = 0;
    loop
        invariant
            i <= av.len(),
            i <= bv.len(),
            av@ == encode_utf8(a@),
            bv@ == encode_utf8(b@),
            forall|k: int| 0 <= k < i ==> av@[k] == bv@[k],
        decreases av.len() - i,
    {
        proof {
            lemma_lex_le_common_prefix(av@, bv@, i as int);
        }
        if i == av.len() {
            return true;
        }
        if i == bv.len() {
            return false;
        }
        if av[i] < bv[i] {
            return true;
        }
        if av[i] > bv[i] {
            return false;
        }
        i = i + 1;
    }
}

/// Decides string equality by comparing UTF-8 bytes.
pub fn str_eq_exec(a: &str, b: &str) -> (r: bool)
    ensures
        r == (a@ == b@),
{
    let av = a.as_bytes_vec();
    let bv = b.as_bytes_vec();
    if av.len() != bv.len() {
        return false;
    }
    let mut i: usize = 0;
    loop
        invariant
            i <= av.len(),
            av.len() == bv.len(),
            av@ == encode_utf8(a@),
            bv@ == encode_utf8(b@),
            forall|k: int| 0 <= k < i ==> av@[k] == bv@[k],
        decreases av.len() - i,
    {
        if i == av.len() {
            proof {
                assert(av@ =~= bv@);
                lemma_encode_utf8_injective(a@, b@);
            }
            return true;
        }
        if av[i] != bv[i] {
            return false;
        }
        i = i + 1;
    }
}

/// Decides strict order `str_lt`.
pub fn str_lt_exec(a: &str, b: &str) -> (r: bool)
    ensures
        r == str_lt(a@, b@),
{
    let le = str_le_exec(a, b);
    if !le {
        proof {
            lemma_str_lt_trichotomy(a@, b@);
        }
        return false;
    }
    let eq = str_eq_exec(a, b);
    !eq
}

} // verus!
