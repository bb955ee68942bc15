//! Character-level helpers shared by the path grammar and the message
//! encoders: conversion between `&str`/`String` and `Vec<char>`,
//! decimal rendering and parsing, and lexicographic comparison.

use vstd::prelude::*;
use vstd::std_specs::iter::IteratorSpec;

verus! {

/// Collects the characters of a string slice into a vector.
pub fn str_chars(s: &str) -> (r: Vec<char>)
    ensures
        r@ == s@,
{
    broadcast use vstd::string::next_postcondition;

    let mut it = s.chars();
    let mut r: Vec<char> = Vec::new();
    proof {
        vstd::string::axiom_spec_iter(s);
    }
    loop
        invariant
            it.obeys_prophetic_iter_laws(),
            r@ + it.remaining() == s@,
        decreases s@.len() - r@.len(),
    {
        match it.next() {
            Some(c) => {
                r.push(c);
            }
            None => {
                proof {
                    assert(r@ + it.remaining() == s@);
                    assert(it.remaining().len() == 0);
                    assert(r@ =~= s@);
                }
                return r;
            }
        }
    }
}

/// Relies on `String: FromIterator<char>`: collecting characters
/// yields the string made of exactly those characters, in order.
#[verifier::external_body]
pub fn chars_string(v: &Vec<char>) -> (r: String)
    ensures
        r@ == v@,
{
    v.iter().collect()
}

/// Relies on `core::str::from_utf8`: it succeeds exactly on valid
/// UTF-8, and the decoded characters re-encode to the input bytes.
#[verifier::external_body]
pub fn bytes_string(v: &[u8]) -> (r: Option<String>)
    ensures
        r matches Some(s) ==> vstd::utf8::encode_utf8(s@) == v@,
        r is Some <==> vstd::utf8::valid_utf8(v@),
{
    match core::str::from_utf8(v) {
        Ok(s) => Some(s.to_owned()),
        Err(_) => None,
    }
}

/// The decimal digits of `n`, most significant first.
pub open spec fn dec_chars(n: nat) -> Seq<char>
    decreases n,
{
    if n < 10 {
        seq![((48 + n) as u8) as char]
    } else {
        dec_chars(n / 10).push(((48 + n % 10) as u8) as char)
    }
}

/// Renders `n` in decimal.
pub fn fmt_u32(n: u32) -> (r: Vec<char>)
    ensures
        r@ == dec_chars(n as nat),
    decreases n,
{
    if n < 10 {
        let c: char = ((48 + n) as u8) as char;
        let mut r: Vec<char> = Vec::new();
        r.push(c);
        proof {
            assert(r@ =~= dec_chars(n as nat));
        }
        r
    } else {
        let mut r = fmt_u32(n / 10);
        let c: char = ((48 + n % 10) as u8) as char;
        r.push(c);
        proof {
            assert(r@ =~= dec_chars(n as nat));
        }
        r
    }
}

/// Whether every character of `s` is a decimal digit.
pub open spec fn all_digits(s: Seq<char>) -> bool {
    forall|i: int| 0 <= i < s.len() ==> '0' <= #[trigger] s[i] <= '9'
}

/// The value of a digit string, most significant first.
pub open spec fn dec_value(s: Seq<char>) -> nat
    decreases s.len(),
{
    if s.len() == 0 {
        0
    } else {
        (dec_value(s.drop_last()) * 10 + (s.last() as int - 48)) as nat
    }
}

/// Parses the decimal digits of `s` starting at `from`; `None` when the
/// range is empty, holds a non-digit, or the value does not fit in u32.
pub fn parse_u32(s: &Vec<char>, from: usize) -> (r: Option<u32>)
    requires
        from <= s@.len(),
    ensures
        r matches Some(v) ==> (s@.len() > from && all_digits(s@.skip(from as int)) && v
            == dec_value(s@.skip(from as int))),
        r is None ==> (s@.len() == from || !all_digits(s@.skip(from as int)) || dec_value(
            s@.skip(from as int),
        ) > u32::MAX),
{
    if from == s.len() {
        return None;
    }
    let ghost whole = s@.skip(from as int);
    let mut acc: u32 = 0;
    let mut i: usize = from;
    while i < s.len()
        invariant
            from <= i <= s@.len(),
            whole == s@.skip(from as int),
            all_digits(s@.subrange(from as int, i as int)),
            acc == dec_value(s@.subrange(from as int, i as int)),
        decreases s@.len() - i,
    {
        let c = s[i];
        if c < '0' || c > '9' {
            proof {
                assert(whole[i - from] == s@[i as int]);
                assert(!all_digits(whole));
            }
            return None;
        }
        let d: u32 = (c as u32) - 48;
        proof {
            assert(s@.subrange(from as int, i + 1).drop_last() =~= s@.subrange(from as int, i as int));
            assert(s@.subrange(from as int, i + 1).last() == s@[i as int]);
            assert(dec_value(s@.subrange(from as int, i + 1)) == acc * 10 + d);
        }
        if acc > (u32::MAX - d) / 10 {
            proof {
                assert(acc * 10 + d > u32::MAX) by (nonlinear_arith)
                    requires
                        acc > ((u32::MAX as int - d as int)) / 10,
                        d <= 9,
                ;
                if all_digits(whole) {
                    lemma_dec_value_grows(whole, i - from + 1);
                    assert(s@.subrange(from as int, i + 1) =~= whole.take(i - from + 1));
                    assert(dec_value(whole) >= acc * 10 + d);
                }
            }
            return None;
        }
        proof {
            assert(acc * 10 + d <= u32::MAX) by (nonlinear_arith)
                requires
                    acc <= ((u32::MAX as int - d as int)) / 10,
                    d <= 9,
            ;
        }
        acc = acc * 10 + d;
        i = i + 1;
    }
    proof {
        assert(s@.subrange(from as int, i as int) =~= whole);
    }
    Some(acc)
}

/// For an all-digit string, a prefix never has a larger value.
proof fn lemma_dec_value_grows(s: Seq<char>, k: int)
    requires
        0 <= k <= s.len(),
        all_digits(s),
    ensures
        dec_value(s.take(k)) <= dec_value(s),
    decreases s.len() - k,
{
    if k < s.len() {
        lemma_dec_value_grows(s, k + 1);
        assert(s.take(k + 1).drop_last() =~= s.take(k));
        assert(s.take(k + 1).last() == s[k]);
        assert('0' <= s[k] <= '9');
        assert(dec_value(s.take(k)) * 10 >= dec_value(s.take(k))) by (nonlinear_arith);
        assert(dec_value(s.take(k)) <= dec_value(s.take(k + 1)));
    } else {
        assert(s.take(k) =~= s);
    }
}

/// Strict lexicographic order on character sequences, by code point.
pub open spec fn lex_lt(a: Seq<char>, b: Seq<char>) -> bool
    decreases a.len(),
{
    if b.len() == 0 {
        false
    } else if a.len() == 0 {
        true
    } else if a[0] == b[0] {
        lex_lt(a.drop_first(), b.drop_first())
    } else {
        (a[0] as u32) < (b[0] as u32)
    }
}

/// Compares two character vectors lexicographically.
pub fn chars_lt(a: &Vec<char>, b: &Vec<char>) -> (r: bool)
    ensures
        r == lex_lt(a@, b@),
{
    let mut i: usize = 0;
    proof {
        assert(a@.skip(0) =~= a@);
        assert(b@.skip(0) =~= b@);
    }
    loop
        invariant
            i <= a@.len(),
            i <= b@.len(),
            lex_lt(a@, b@) == lex_lt(a@.skip(i as int), b@.skip(i as int)),
        decreases a@.len() - i,
    {
        if i == a.len() {
            return i < b.len();
        }
        if i == b.len() {
            return false;
        }
        let ca = a[i];
        let cb = b[i];
        if ca == cb {
            proof {
                assert(a@.skip(i as int).drop_first() =~= a@.skip(i + 1));
                assert(b@.skip(i as int).drop_first() =~= b@.skip(i + 1));
            }
            i = i + 1;
        } else {
            return (ca as u32) < (cb as u32);
        }
    }
}

/// Compares two strings for equality of their character sequences.
pub fn str_eq(a: &str, b: &str) -> (r: bool)
    ensures
        r == (a@ == b@),
{
    let va = str_chars(a);
    let vb = str_chars(b);
    chars_eq(&va, &vb)
}

/// Compares two character vectors for equality.
pub fn chars_eq(a: &Vec<char>, b: &Vec<char>) -> (r: bool)
    ensures
        r == (a@ == b@),
{
    if a.len() != b.len() {
        return false;
    }
    let mut i: usize = 0;
    while i < a.len()
        invariant
            i <= a@.len(),
            a@.len() == b@.len(),
            forall|j: int| 0 <= j < i ==> a@[j] == b@[j],
        decreases a@.len() - i,
    {
        if a[i] != b[i] {
            return false;
        }
        i = i + 1;
    }
    proof {
        assert(a@ =~= b@);
    }
    true
}

/// Compares two strings in lexicographic order.
pub fn string_lt(a: &String, b: &String) -> (r: bool)
    ensures
        r == lex_lt(a@, b@),
{
    let va = str_chars(a.as_str());
    let vb = str_chars(b.as_str());
    chars_lt(&va, &vb)
}

/// The order is total: two unordered sequences are equal.
pub proof fn lemma_lex_total(a: Seq<char>, b: Seq<char>)
    ensures
        !lex_lt(a, b) && !lex_lt(b, a) ==> a == b,
    decreases a.len(),
{
    if !lex_lt(a, b) && !lex_lt(b, a) {
        if a.len() == 0 || b.len() == 0 {
            assert(a =~= b);
        } else {
            if a[0] == b[0] {
                lemma_lex_total(a.drop_first(), b.drop_first());
                assert(a =~= seq![a[0]] + a.drop_first());
                assert(b =~= seq![b[0]] + b.drop_first());
            } else {
                // neither code point is below the other, so they are equal,
                // contradicting the branch condition
                lemma_char_code_inj(a[0], b[0]);
            }
        }
    }
}

/// Characters with the same code point are the same character.
proof fn lemma_char_code_inj(x: char, y: char)
    requires
        x as u32 == y as u32,
    ensures
        x == y,
{
}

/// The index of the first occurrence of `sep` in `s`, or `s.len()`.
pub open spec fn first_sep<T>(s: Seq<T>, sep: T) -> int
    decreases s.len(),
{
    if s.len() == 0 {
        0
    } else if s[0] == sep {
        0
    } else {
        1 + first_sep(s.drop_first(), sep)
    }
}

pub proof fn lemma_first_sep<T>(s: Seq<T>, sep: T)
    ensures
        0 <= first_sep(s, sep) <= s.len(),
        first_sep(s, sep) < s.len() ==> s[first_sep(s, sep)] == sep,
        forall|j: int| 0 <= j < first_sep(s, sep) ==> s[j] != sep,
    decreases s.len(),
{
    if s.len() > 0 && s[0] != sep {
        lemma_first_sep(s.drop_first(), sep);
        assert forall|j: int| 0 <= j < first_sep(s, sep) implies s[j] != sep by {
            if j > 0 {
                assert(s[j] == s.drop_first()[j - 1]);
            }
        }
    }
}

/// `s` split at every occurrence of `sep`, dropping empty segments.
pub open spec fn split_sep<T>(s: Seq<T>, sep: T) -> Seq<Seq<T>>
    decreases s.len(),
    via split_sep_dec::<T>
{
    if s.len() == 0 {
        Seq::empty()
    } else {
        let i = first_sep(s, sep);
        let rest = if i == s.len() {
            Seq::<T>::empty()
        } else {
            s.skip(i + 1)
        };
        if i == 0 {
            split_sep(rest, sep)
        } else {
            seq![s.take(i)] + split_sep(rest, sep)
        }
    }
}

#[via_fn]
proof fn split_sep_dec<T>(s: Seq<T>, sep: T) {
    lemma_first_sep(s, sep);
}

/// Whether `f` is free of the separator.
pub open spec fn sep_free<T>(f: Seq<T>, sep: T) -> bool {
    forall|j: int| 0 <= j < f.len() ==> f[j] != sep
}

proof fn lemma_first_sep_concat<T>(f: Seq<T>, sep: T, r: Seq<T>)
    requires
        sep_free(f, sep),
    ensures
        first_sep(f + seq![sep] + r, sep) == f.len(),
    decreases f.len(),
{
    let s = f + seq![sep] + r;
    if f.len() == 0 {
        assert(s[0] == sep);
    } else {
        assert(s[0] == f[0]);
        assert(s[0] != sep);
        lemma_first_sep_concat(f.drop_first(), sep, r);
        assert(s.drop_first() =~= f.drop_first() + seq![sep] + r);
    }
}

proof fn lemma_first_sep_all<T>(f: Seq<T>, sep: T)
    requires
        sep_free(f, sep),
    ensures
        first_sep(f, sep) == f.len(),
    decreases f.len(),
{
    if f.len() > 0 {
        lemma_first_sep_all(f.drop_first(), sep);
    }
}

/// Splitting a separator-free segment, a separator, and more input
/// yields that segment (when non-empty) and the split of the rest.
pub proof fn lemma_split_sep_step<T>(f: Seq<T>, sep: T, r: Seq<T>)
    requires
        sep_free(f, sep),
    ensures
        split_sep(f + seq![sep] + r, sep) == (if f.len() == 0 {
            split_sep(r, sep)
        } else {
            seq![f] + split_sep(r, sep)
        }),
{
    let s = f + seq![sep] + r;
    lemma_first_sep_concat(f, sep, r);
    assert(s.len() > 0);
    assert(first_sep(s, sep) == f.len());
    assert(f.len() < s.len());
    assert(s.skip(f.len() as int + 1) =~= r);
    if f.len() > 0 {
        assert(s.take(f.len() as int) =~= f);
    }
}

/// Splitting a separator-free tail yields the tail itself (when
/// non-empty).
pub proof fn lemma_split_sep_last<T>(f: Seq<T>, sep: T)
    requires
        sep_free(f, sep),
    ensures
        split_sep(f, sep) == (if f.len() == 0 {
            Seq::<Seq<T>>::empty()
        } else {
            seq![f]
        }),
{
    lemma_first_sep_all(f, sep);
    if f.len() > 0 {
        assert(f.take(f.len() as int) =~= f);
        assert(split_sep(Seq::<T>::empty(), sep) =~= Seq::<Seq<T>>::empty());
        assert(split_sep(f, sep) =~= seq![f]);
    }
}

/// The order is transitive.
pub proof fn lemma_lex_trans(a: Seq<char>, b: Seq<char>, c: Seq<char>)
    requires
        lex_lt(a, b),
        lex_lt(b, c),
    ensures
        lex_lt(a, c),
    decreases a.len(),
{
    if a.len() > 0 {
        if a[0] == b[0] {
            if b[0] == c[0] {
                lemma_lex_trans(a.drop_first(), b.drop_first(), c.drop_first());
            } else {
                assert((b[0] as u32) < (c[0] as u32));
            }
        } else {
            assert((a[0] as u32) < (b[0] as u32));
            if b[0] == c[0] {
            } else {
                assert((b[0] as u32) < (c[0] as u32));
            }
        }
    }
}

/// The order is irreflexive and asymmetric.
pub proof fn lemma_lex_asym(a: Seq<char>, b: Seq<char>)
    ensures
        lex_lt(a, b) ==> !lex_lt(b, a),
        !lex_lt(a, a),
    decreases a.len(),
{
    if a.len() > 0 && b.len() > 0 {
        lemma_lex_asym(a.drop_first(), b.drop_first());
    }
    if a.len() > 0 {
        lemma_lex_asym(a.drop_first(), a.drop_first());
    }
}

} // verus!
