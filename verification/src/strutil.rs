//! Character-level string operations: conversion between `String` and
//! character vectors, lexicographic order, substring search, and decimal
//! parsing.  Contracts are stated over `Seq<char>`.

use vstd::prelude::*;

verus! {

/// Relies on `str::chars`: the iterator yields exactly the characters of
/// the slice, in order.
#[verifier::external_body]
pub fn chars_of(s: &str) -> (v: Vec<char>)
    ensures
        v@ == s@,
{
    s.chars().collect()
}

/// Relies on `String`'s `FromIterator` impl: collecting characters yields
/// the string of exactly those characters, in order.
#[verifier::external_body]
pub fn string_from_chars(v: &Vec<char>) -> (s: String)
    ensures
        s@ == v@,
{
    v.iter().collect()
}

/// Copy a character range out as an owned string.
pub fn segment_string(cs: &Vec<char>, i: usize, j: usize) -> (r: String)
    requires
        i <= j <= cs@.len(),
    ensures
        r@ == cs@.subrange(i as int, j as int),
{
    let mut seg: Vec<char> = Vec::new();
    let mut k: usize = i;
    proof {
        assert(seg@ =~= cs@.subrange(i as int, i as int));
    }
    while k < j
        invariant
            i <= k <= j <= cs@.len(),
            seg@ == cs@.subrange(i as int, k as int),
        decreases j - k,
    {
        seg.push(cs[k]);
        proof {
            assert(seg@ =~= cs@.subrange(i as int, k + 1));
        }
        k = k + 1;
    }
    string_from_chars(&seg)
}

/// Copy a character suffix out as an owned string.
pub fn suffix_string(cs: &Vec<char>, i: usize) -> (r: String)
    requires
        i <= cs@.len(),
    ensures
        r@ == cs@.skip(i as int),
{
    let r = segment_string(cs, i, cs.len());
    proof {
        assert(cs@.subrange(i as int, cs@.len() as int) =~= cs@.skip(i as int));
    }
    r
}

/// Strict lexicographic order on character sequences, by code point.
pub open spec fn lex_lt(a: Seq<char>, b: Seq<char>) -> bool
    decreases a.len(),
{
    if b.len() == 0 {
        false
    } else if a.len() == 0 {
        true
    } else if a[0] != b[0] {
        (a[0] as u32) < (b[0] as u32)
    } else {
        lex_lt(a.drop_first(), b.drop_first())
    }
}

/// Compare two character vectors in lexicographic (code point) order.
pub fn lex_lt_chars(a: &Vec<char>, b: &Vec<char>) -> (r: bool)
    ensures
        r == lex_lt(a@, b@),
{
    let mut i: usize = 0;
    proof {
        assert(a@.skip(0) =~= a@);
        assert(b@.skip(0) =~= b@);
    }
    loop
        invariant
            i <= a.len(),
            i <= b.len(),
            a@.take(i as int) == b@.take(i as int),
            lex_lt(a@, b@) == lex_lt(a@.skip(i as int), b@.skip(i as int)),
        ensures
            lex_lt(a@, b@) == {
                if i < a.len() && i < b.len() {
                    (a@[i as int] as u32) < (b@[i as int] as u32)
                } else {
                    i == a.len() && i < b.len()
                }
            },
        decreases a.len() - i,
    {
        if i >= a.len() || i >= b.len() {
            break;
        }
        if a[i] != b[i] {
            break;
        }
        proof {
            assert(a@.skip(i as int).drop_first() =~= a@.skip(i + 1));
            assert(b@.skip(i as int).drop_first() =~= b@.skip(i + 1));
            assert(a@.take(i + 1) =~= b@.take(i + 1));
        }
        i = i + 1;
    }
    if i < a.len() && i < b.len() {
        (a[i] as u32) < (b[i] as u32)
    } else {
        i == a.len() && i < b.len()
    }
}

/// Equality of two character vectors.
pub fn eq_chars(a: &Vec<char>, b: &Vec<char>) -> (r: bool)
    ensures
        r == (a@ == b@),
{
    if a.len() != b.len() {
        return false;
    }
    let mut i: usize = 0;
    loop
        invariant
            i <= a.len(),
            a.len() == b.len(),
            a@.take(i as int) == b@.take(i as int),
        ensures
            if i == a.len() {
                a@ == b@
            } else {
                a@ != b@
            },
        decreases a.len() - i,
    {
        if i >= a.len() {
            proof {
                assert(a@.take(i as int) =~= a@);
                assert(b@.take(i as int) =~= b@);
            }
            break;
        }
        if a[i] != b[i] {
            break;
        }
        proof {
            assert(a@.take(i + 1) =~= b@.take(i + 1));
        }
        i = i + 1;
    }
    i == a.len()
}

/// `needle` occurs as a contiguous run inside `hay`.
pub open spec fn has_substring(hay: Seq<char>, needle: Seq<char>) -> bool {
    exists|k: int|
        0 <= k && k + needle.len() <= hay.len() && #[trigger] hay.subrange(k, k + needle.len())
            == needle
}

/// `needle` occurs in `hay` starting at position `k`.
fn matches_at(hay: &Vec<char>, needle: &Vec<char>, k: usize) -> (r: bool)
    requires
        k + needle.len() <= hay.len(),
    ensures
        r == (hay@.subrange(k as int, k + needle@.len()) == needle@),
{
    let mut j: usize = 0;
    loop
        invariant
            j <= needle.len(),
            k + needle.len() <= hay.len(),
            hay@.subrange(k as int, k + j) == needle@.take(j as int),
        ensures
            if j < needle.len() {
                hay@[k + j] != needle@[j as int]
                    && hay@.subrange(k as int, k + needle@.len()) != needle@
            } else {
                hay@.subrange(k as int, k + needle@.len()) == needle@
            },
        decreases needle.len() - j,
    {
        if j >= needle.len() {
            proof {
                assert(hay@.subrange(k as int, k + needle@.len()) =~= needle@);
            }
            break;
        }
        if hay[k + j] != needle[j] {
            proof {
                let full = hay@.subrange(k as int, k + needle@.len());
                assert(full[j as int] == hay@[k + j]);
            }
            break;
        }
        proof {
            assert(hay@.subrange(k as int, k + (j + 1)) =~= needle@.take(j + 1));
        }
        j = j + 1;
    }
    j == needle.len()
}

/// Substring search over character vectors.
pub fn contains_chars(hay: &Vec<char>, needle: &Vec<char>) -> (r: bool)
    ensures
        r == has_substring(hay@, needle@),
{
    if needle.len() > hay.len() {
        return false;
    }
    if needle.len() == 0 {
        proof {
            assert(hay@.subrange(0, 0 + needle@.len() as int) =~= needle@);
        }
        return true;
    }
    let last = hay.len() - needle.len();
    let mut k: usize = 0;
    loop
        invariant
            k <= last + 1,
            last == hay.len() - needle.len(),
            1 <= needle.len() <= hay.len(),
            forall|k2: int|
                0 <= k2 < k ==> #[trigger] hay@.subrange(k2, k2 + needle@.len()) != needle@,
        ensures
            if k <= last {
                hay@.subrange(k as int, k + needle@.len()) == needle@
            } else {
                forall|k2: int|
                    0 <= k2 && k2 + needle@.len() <= hay@.len()
                        ==> #[trigger] hay@.subrange(k2, k2 + needle@.len()) != needle@
            },
        decreases last + 1 - k,
    {
        if k > last {
            break;
        }
        if matches_at(hay, needle, k) {
            break;
        }
        k = k + 1;
    }
    k <= last
}

/// A decimal digit.
pub open spec fn is_digit(c: char) -> bool {
    48 <= (c as u32) <= 57
}

/// The value of a digit sequence read in base ten.
pub open spec fn digits_val(s: Seq<char>) -> int
    decreases s.len(),
{
    if s.len() == 0 {
        0
    } else {
        digits_val(s.drop_last()) * 10 + ((s.last() as u32) - 48)
    }
}

/// A non-empty, all-digit sequence whose value fits in a `usize`.
pub open spec fn is_usize_digits(s: Seq<char>) -> bool {
    &&& s.len() > 0
    &&& forall|i: int| 0 <= i < s.len() ==> is_digit(#[trigger] s[i])
    &&& digits_val(s) <= usize::MAX
}

pub proof fn lemma_digits_val_nonneg(s: Seq<char>)
    requires
        forall|i: int| 0 <= i < s.len() ==> is_digit(#[trigger] s[i]),
    ensures
        digits_val(s) >= 0,
    decreases s.len(),
{
    if s.len() > 0 {
        lemma_digits_val_nonneg(s.drop_last());
    }
}

pub proof fn lemma_digits_val_prefix_le(s: Seq<char>, i: int)
    requires
        forall|j: int| 0 <= j < s.len() ==> is_digit(#[trigger] s[j]),
        0 <= i <= s.len(),
    ensures
        digits_val(s.take(i)) <= digits_val(s),
    decreases s.len() - i,
{
    if i < s.len() {
        lemma_digits_val_prefix_le(s, i + 1);
        let p = s.take(i + 1);
        assert(p.drop_last() =~= s.take(i));
        lemma_digits_val_nonneg(s.take(i));
        assert(digits_val(p) == digits_val(s.take(i)) * 10 + ((s[i] as u32) - 48));
    } else {
        assert(s.take(i) =~= s);
    }
}

/// Read a non-negative decimal integer from a character vector.  `None`
/// exactly when the characters are not a fitting all-digit numeral.
pub fn parse_usize_chars(s: &Vec<char>) -> (r: Option<usize>)
    ensures
        match r {
            Some(n) => is_usize_digits(s@) && n == digits_val(s@),
            None => !is_usize_digits(s@),
        },
{
    if s.len() == 0 {
        return None;
    }
    let mut n: usize = 0;
    let mut i: usize = 0;
    loop
        invariant
            i <= s.len(),
            s.len() > 0,
            forall|j: int| 0 <= j < i ==> is_digit(#[trigger] s@[j]),
            n == digits_val(s@.take(i as int)),
        ensures
            if i == s.len() {
                n == digits_val(s@) && forall|j: int| 0 <= j < i ==> is_digit(#[trigger] s@[j])
            } else {
                !is_usize_digits(s@)
            },
        decreases s.len() - i,
    {
        if i >= s.len() {
            proof {
                assert(s@.take(i as int) =~= s@);
            }
            break;
        }
        let c = s[i] as u32;
        if c < 48 || c > 57 {
            break;
        }
        let d = (c - 48) as usize;
        if n > (usize::MAX - d) / 10 {
            // The prefix alone already exceeds usize::MAX.
            proof {
                let p = s@.take(i + 1);
                assert(p.drop_last() =~= s@.take(i as int));
                assert(digits_val(p) == n * 10 + d);
                if is_usize_digits(s@) {
                    lemma_digits_val_prefix_le(s@, i + 1);
                }
            }
            return None;
        }
        proof {
            let p = s@.take(i + 1);
            assert(p.drop_last() =~= s@.take(i as int));
        }
        n = n * 10 + d;
        i = i + 1;
    }
    if i == s.len() {
        Some(n)
    } else {
        None
    }
}

} // verus!
