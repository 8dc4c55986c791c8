//! Verified character-sequence utilities: lexicographic order, equality
//! and substring search, used by the store and the listing code.

use vstd::prelude::*;

verus! {

/// Lexicographic "less or equal" on character sequences, by unicode
/// scalar value, position by position; a proper prefix comes first.
pub open spec fn lex_le(a: Seq<char>, b: Seq<char>) -> bool
    decreases a.len(),
{
    if a.len() == 0 {
        true
    } else if b.len() == 0 {
        false
    } else if (a[0] as u32) < (b[0] as u32) {
        true
    } else if (b[0] as u32) < (a[0] as u32) {
        false
    } else {
        lex_le(a.skip(1), b.skip(1))
    }
}

/// Any two character sequences are comparable under `lex_le`.
pub proof fn lemma_lex_le_total(a: Seq<char>, b: Seq<char>)
    ensures
        lex_le(a, b) || lex_le(b, a),
    decreases a.len(),
{
    if a.len() > 0 && b.len() > 0 && !((a[0] as u32) < (b[0] as u32)) && !((b[0] as u32) < (a[0]
        as u32)) {
        lemma_lex_le_total(a.skip(1), b.skip(1));
    }
}

/// `lex_le` holds in both directions only for equal sequences.
pub proof fn lemma_lex_le_antisymmetric(a: Seq<char>, b: Seq<char>)
    requires
        lex_le(a, b),
        lex_le(b, a),
    ensures
        a == b,
    decreases a.len(),
{
    if a.len() == 0 {
        assert(b.len() == 0);
        assert(a =~= b);
    } else {
        assert(b.len() > 0);
        vstd::utf8::char_u32_cast(a[0], a[0] as u32);
        vstd::utf8::char_u32_cast(b[0], b[0] as u32);
        assert(a[0] == b[0]);
        lemma_lex_le_antisymmetric(a.skip(1), b.skip(1));
        assert(a =~= seq![a[0]] + a.skip(1));
        assert(b =~= seq![b[0]] + b.skip(1));
    }
}

/// `lex_le` is transitive.
pub proof fn lemma_lex_le_transitive(a: Seq<char>, b: Seq<char>, c: Seq<char>)
    requires
        lex_le(a, b),
        lex_le(b, c),
    ensures
        lex_le(a, c),
    decreases a.len(),
{
    if a.len() > 0 && b.len() > 0 && c.len() > 0 {
        if !((a[0] as u32) < (c[0] as u32)) && !((c[0] as u32) < (a[0] as u32)) {
            lemma_lex_le_transitive(a.skip(1), b.skip(1), c.skip(1));
        }
    }
}

/// Strict lexicographic order on character sequences.
pub open spec fn lex_lt(a: Seq<char>, b: Seq<char>) -> bool {
    lex_le(a, b) && a != b
}

/// `lex_lt` is transitive.
pub proof fn lemma_lex_lt_transitive(a: Seq<char>, b: Seq<char>, c: Seq<char>)
    requires
        lex_lt(a, b),
        lex_lt(b, c),
    ensures
        lex_lt(a, c),
{
    lemma_lex_le_transitive(a, b, c);
    if a == c {
        lemma_lex_le_antisymmetric(a, b);
    }
}

/// Compares two strings under `lex_le`.
pub fn str_le(a: &str, b: &str) -> (r: bool)
    ensures
        r == lex_le(a@, b@),
{
    let alen = a.unicode_len();
    let blen = b.unicode_len();
    let mut i: usize = 0;
    proof {
        assert(a@.skip(0) =~= a@);
        assert(b@.skip(0) =~= b@);
    }
    loop
        invariant
            i <= alen,
            i <= blen,
            alen == a@.len(),
            blen == b@.len(),
            lex_le(a@, b@) == lex_le(a@.skip(i as int), b@.skip(i as int)),
        decreases alen - i,
    {
        if i >= alen {
            return true;
        }
        if i >= blen {
            return false;
        }
        let ca = a.get_char(i);
        let cb = b.get_char(i);
        if (ca as u32) < (cb as u32) {
            return true;
        }
        if (cb as u32) < (ca as u32) {
            return false;
        }
        proof {
            assert(a@.skip(i as int).skip(1) =~= a@.skip(i as int + 1));
            assert(b@.skip(i as int).skip(1) =~= b@.skip(i as int + 1));
        }
        i = i + 1;
    }
}

/// Compares two strings for equality of their character sequences.
pub fn str_eq(a: &str, b: &str) -> (r: bool)
    ensures
        r == (a@ == b@),
{
    let alen = a.unicode_len();
    let blen = b.unicode_len();
    if alen != blen {
        return false;
    }
    let mut i: usize = 0;
    loop
        invariant
            i <= alen,
            alen == a@.len(),
            alen == b@.len(),
            forall|j: int| 0 <= j < i ==> a@[j] == b@[j],
        decreases alen - i,
    {
        if i >= alen {
            proof {
                assert(a@ =~= b@);
            }
            return true;
        }
        let ca = a.get_char(i);
        let cb = b.get_char(i);
        if ca != cb {
            return false;
        }
        i = i + 1;
    }
}

/// Whether `needle` occurs contiguously inside `hay`; the empty sequence
/// occurs in every sequence.
pub open spec fn seq_contains(hay: Seq<char>, needle: Seq<char>) -> bool {
    exists|k: int|
        0 <= k <= hay.len() - needle.len() && #[trigger] hay.subrange(k, k + needle.len() as int)
            == needle
}

/// Whether `needle` occurs in `hay` starting exactly at `k`.
spec fn match_at(hay: Seq<char>, needle: Seq<char>, k: int) -> bool {
    0 <= k <= hay.len() - needle.len() && hay.subrange(k, k + needle.len() as int) == needle
}

/// Compares `needle` against `hay` at one starting offset.
fn str_match_at(hay: &str, needle: &str, k: usize) -> (r: bool)
    requires
        k + needle@.len() <= hay@.len(),
        hay@.len() <= usize::MAX,
    ensures
        r == match_at(hay@, needle@, k as int),
{
    let nlen = needle.unicode_len();
    let mut j: usize = 0;
    loop
        invariant
            j <= nlen,
            nlen == needle@.len(),
            k + nlen <= hay@.len(),
            hay@.len() <= usize::MAX,
            forall|t: int| 0 <= t < j ==> hay@[k + t] == needle@[t],
        decreases nlen - j,
    {
        if j >= nlen {
            proof {
                assert(hay@.subrange(k as int, k as int + nlen as int) =~= needle@);
            }
            return true;
        }
        let hc = hay.get_char(k + j);
        let nc = needle.get_char(j);
        if hc != nc {
            proof {
                assert(hay@.subrange(k as int, k as int + nlen as int)[j as int] == hay@[k + j]);
            }
            return false;
        }
        j = j + 1;
    }
}

/// Clones a vector of strings, keeping every character sequence.
pub fn clone_strings(v: &Vec<String>) -> (r: Vec<String>)
    ensures
        r.deep_view() == v.deep_view(),
        r@ == v@,
{
    let mut r: Vec<String> = Vec::new();
    let mut i: usize = 0;
    while i < v.len()
        invariant
            i <= v@.len(),
            r@.len() == i,
            forall|j: int| 0 <= j < i ==> r@[j] == v@[j],
        decreases v@.len() - i,
    {
        r.push(v[i].clone());
        i = i + 1;
    }
    proof {
        assert(r@ =~= v@);
        assert(r.deep_view() =~= v.deep_view());
    }
    r
}

/// Substring search: whether `needle` occurs anywhere inside `hay`.
pub fn str_contains(hay: &str, needle: &str) -> (r: bool)
    ensures
        r == seq_contains(hay@, needle@),
{
    let hlen = hay.unicode_len();
    let nlen = needle.unicode_len();
    if nlen > hlen {
        return false;
    }
    let mut k: usize = 0;
    loop
        invariant
            k <= hlen - nlen,
            nlen <= hlen,
            hlen == hay@.len(),
            nlen == needle@.len(),
            forall|t: int| 0 <= t < k ==> !match_at(hay@, needle@, t),
        decreases hlen - nlen - k,
    {
        if str_match_at(hay, needle, k) {
            proof {
                assert(hay@.subrange(k as int, k as int + needle@.len() as int) == needle@);
            }
            return true;
        }
        if k >= hlen - nlen {
            proof {
                assert forall|t: int|
                    0 <= t <= hay@.len() - needle@.len() implies #[trigger] hay@.subrange(
                    t,
                    t + needle@.len() as int,
                ) != needle@ by {
                    assert(!match_at(hay@, needle@, t));
                }
            }
            return false;
        }
        k = k + 1;
    }
}

} // verus!
