//! Byte-level text: classes of bytes, trimming, splitting on whitespace and
//! unsigned decimal numbers.
//!
//! Lines of a PDF file are handled as raw bytes. Text is made of them only
//! at the very end, by [`lossy_text`].

use vstd::prelude::*;
use vstd::utf8::{decode_utf8, valid_utf8};

verus! {

/// A line terminator: line feed or carriage return.
pub open spec fn is_eol(b: u8) -> bool {
    b == 10 || b == 13
}

/// ASCII whitespace: space, horizontal tab, line feed, form feed, carriage return.
pub open spec fn is_space(b: u8) -> bool {
    b == 32 || b == 9 || b == 10 || b == 12 || b == 13
}

/// An ASCII decimal digit.
pub open spec fn is_digit(b: u8) -> bool {
    48 <= b <= 57
}

/// Whether `b` is a line terminator.
pub fn byte_is_eol(b: u8) -> (r: bool)
    ensures
        r == is_eol(b),
{
    b == 10 || b == 13
}

/// Whether `b` is ASCII whitespace.
pub fn byte_is_space(b: u8) -> (r: bool)
    ensures
        r == is_space(b),
{
    b == 32 || b == 9 || b == 10 || b == 12 || b == 13
}

/// The length of `s` without its trailing whitespace.
pub open spec fn trimmed_len(s: Seq<u8>) -> nat
    decreases s.len(),
{
    if s.len() > 0 && is_space(s.last()) {
        trimmed_len(s.drop_last())
    } else {
        s.len()
    }
}

/// `s` without its trailing whitespace.
pub open spec fn trim_end(s: Seq<u8>) -> Seq<u8> {
    s.take(trimmed_len(s) as int)
}

/// `trimmed_len(s)` cuts `s` where everything after is whitespace and the
/// byte before is not.
pub proof fn lemma_trimmed_len(s: Seq<u8>)
    ensures
        trimmed_len(s) <= s.len(),
        forall|i: int| trimmed_len(s) <= i < s.len() ==> is_space(#[trigger] s[i]),
        trimmed_len(s) > 0 ==> !is_space(s[trimmed_len(s) - 1]),
    decreases s.len(),
{
    if s.len() > 0 && is_space(s.last()) {
        let t = s.drop_last();
        lemma_trimmed_len(t);
        assert forall|i: int| trimmed_len(s) <= i < s.len() implies is_space(#[trigger] s[i]) by {
            if i < t.len() {
                assert(t[i] == s[i]);
            }
        }
        if trimmed_len(s) > 0 {
            assert(t[trimmed_len(s) - 1] == s[trimmed_len(s) - 1]);
        }
    }
}

/// The length of `s` without its trailing whitespace.
pub fn trim_end_len(s: &[u8]) -> (n: usize)
    ensures
        n == trimmed_len(s@),
        n <= s@.len(),
{
    let mut n: usize = s.len();
    assert(s@.take(n as int) =~= s@);
    while n > 0 && byte_is_space(s[n - 1])
        invariant
            n <= s@.len(),
            trimmed_len(s@) == trimmed_len(s@.take(n as int)),
        decreases n,
    {
        assert(s@.take(n as int).drop_last() =~= s@.take(n as int - 1));
        n = n - 1;
    }
    n
}

/// The number of bytes from index `i` up to the next whitespace or the end.
pub open spec fn word_len(s: Seq<u8>, i: int) -> nat
    decreases s.len() - i,
{
    if 0 <= i < s.len() && !is_space(s[i]) {
        1 + word_len(s, i + 1)
    } else {
        0
    }
}

/// A word ends within `s`, on whitespace or at the end, and holds none.
pub proof fn lemma_word_len(s: Seq<u8>, i: int)
    requires
        0 <= i <= s.len(),
    ensures
        i + word_len(s, i) <= s.len(),
        forall|j: int| i <= j < i + word_len(s, i) ==> !is_space(#[trigger] s[j]),
        i + word_len(s, i) < s.len() ==> is_space(s[i + word_len(s, i)]),
    decreases s.len() - i,
{
    if i < s.len() && !is_space(s[i]) {
        lemma_word_len(s, i + 1);
    }
}

/// The whitespace-separated tokens of `s` that start at index `i` or later.
pub open spec fn tokens_from(s: Seq<u8>, i: int) -> Seq<Seq<u8>>
    decreases s.len() - i,
    via tokens_from_terminates
{
    if i < 0 || i >= s.len() {
        Seq::empty()
    } else if is_space(s[i]) {
        tokens_from(s, i + 1)
    } else {
        let end = i + word_len(s, i);
        seq![s.subrange(i, end)] + tokens_from(s, end)
    }
}

/// Each token taken ends within `s`, so fewer bytes are left to split.
#[via_fn]
proof fn tokens_from_terminates(s: Seq<u8>, i: int) {
    if 0 <= i < s.len() {
        lemma_word_len(s, i);
    }
}

/// The maximal runs of bytes of `s` that hold no whitespace, in order.
pub open spec fn tokens(s: Seq<u8>) -> Seq<Seq<u8>> {
    tokens_from(s, 0)
}

/// The byte sequences that a vector of byte vectors holds.
pub open spec fn views(v: Seq<Vec<u8>>) -> Seq<Seq<u8>> {
    Seq::new(v.len(), |k: int| v[k]@)
}

/// Splits `line` on ASCII whitespace; empty tokens are not produced.
pub fn split_tokens(line: &[u8]) -> (out: Vec<Vec<u8>>)
    ensures
        views(out@) == tokens(line@),
{
    let mut out: Vec<Vec<u8>> = Vec::new();
    let mut i: usize = 0;
    assert(views(out@) =~= Seq::<Seq<u8>>::empty());
    while i < line.len()
        invariant
            i <= line@.len(),
            views(out@) + tokens_from(line@, i as int) == tokens(line@),
        decreases line@.len() - i,
    {
        if byte_is_space(line[i]) {
            i = i + 1;
        } else {
            let start: usize = i;
            let mut word: Vec<u8> = Vec::new();
            while i < line.len() && !byte_is_space(line[i])
                invariant
                    start <= i <= line@.len(),
                    word@ == line@.subrange(start as int, i as int),
                    start + word_len(line@, start as int) == i + word_len(line@, i as int),
                decreases line@.len() - i,
            {
                word.push(line[i]);
                assert(word@ =~= line@.subrange(start as int, i as int + 1));
                i = i + 1;
            }
            let ghost before = views(out@);
            out.push(word);
            assert(views(out@) =~= before + seq![line@.subrange(start as int, i as int)]);
            assert(before + (seq![line@.subrange(start as int, i as int)] + tokens_from(
                line@,
                i as int,
            )) =~= before + seq![line@.subrange(start as int, i as int)] + tokens_from(
                line@,
                i as int,
            ));
        }
    }
    assert(views(out@) + Seq::<Seq<u8>>::empty() =~= views(out@));
    out
}

/// The number that the decimal digits `s` write. Bytes are taken by their
/// distance from `'0'`; the empty sequence gives 0.
pub open spec fn decimal_value(s: Seq<u8>) -> nat
    decreases s.len(),
{
    if s.len() == 0 {
        0
    } else {
        (10 * decimal_value(s.drop_last()) + (s.last() - 48)) as nat
    }
}

/// Whether every byte of `s` is a decimal digit.
pub open spec fn all_digits(s: Seq<u8>) -> bool {
    forall|i: int| 0 <= i < s.len() ==> is_digit(#[trigger] s[i])
}

/// `s` without a leading `+`, if it has one.
pub open spec fn unsigned_part(s: Seq<u8>) -> Seq<u8> {
    if s.len() > 0 && s[0] == 43 {
        s.drop_first()
    } else {
        s
    }
}

/// The `u64` that `s` writes in decimal: an optional `+`, then one or more
/// digits and nothing else, with a value of at most `u64::MAX`. `None` for
/// every other sequence.
pub open spec fn parse_decimal(s: Seq<u8>) -> Option<u64> {
    let d = unsigned_part(s);
    if d.len() > 0 && all_digits(d) && decimal_value(d) <= u64::MAX {
        Some(decimal_value(d) as u64)
    } else {
        None
    }
}

/// A digit string is worth at least as much as each of its prefixes.
pub proof fn lemma_decimal_value_grows(s: Seq<u8>, n: int)
    requires
        all_digits(s),
        0 <= n <= s.len(),
    ensures
        decimal_value(s.take(n)) <= decimal_value(s),
    decreases s.len(),
{
    if n < s.len() {
        let t = s.drop_last();
        assert(all_digits(t));
        assert(t.take(n) =~= s.take(n));
        lemma_decimal_value_grows(t, n);
    } else {
        assert(s.take(n) =~= s);
    }
}

/// Reads `s` as an unsigned decimal number.
pub fn parse_u64(s: &[u8]) -> (r: Option<u64>)
    ensures
        r == parse_decimal(s@),
{
    let first: usize = if s.len() > 0 && s[0] == 43 { 1 } else { 0 };
    let ghost d = unsigned_part(s@);
    assert(d =~= s@.subrange(first as int, s@.len() as int));
    if first == s.len() {
        return None;
    }
    let mut value: u64 = 0;
    let mut i: usize = first;
    assert(d.take(0) =~= Seq::<u8>::empty());
    while i < s.len()
        invariant
            first <= i <= s@.len(),
            d == unsigned_part(s@),
            d == s@.subrange(first as int, s@.len() as int),
            all_digits(d.take(i - first)),
            value == decimal_value(d.take(i - first)),
        decreases s@.len() - i,
    {
        let b: u8 = s[i];
        assert(d[i - first] == b);
        if b < 48 || b > 57 {
            assert(!all_digits(d));
            return None;
        }
        let digit: u64 = (b - 48) as u64;
        proof {
            let next = d.take(i - first + 1);
            assert(next.drop_last() =~= d.take(i - first));
            assert(next.last() == b);
            assert(all_digits(next)) by {
                assert forall|k: int| 0 <= k < next.len() implies is_digit(#[trigger] next[k]) by {
                    if k < i - first {
                        assert(d.take(i - first)[k] == next[k]);
                    }
                }
            }
            assert(decimal_value(next) == 10 * value + digit);
            if 10 * value + digit > u64::MAX && all_digits(d) {
                lemma_decimal_value_grows(d, i - first + 1);
                assert(decimal_value(d) > u64::MAX);
            }
        }
        if value > (u64::MAX - digit) / 10 {
            return None;
        }
        value = value * 10 + digit;
        i = i + 1;
    }
    assert(d.take(d.len() as int) =~= d);
    Some(value)
}

/// Whether `s` begins with the bytes of `prefix`.
pub open spec fn has_prefix(s: Seq<u8>, prefix: Seq<u8>) -> bool {
    prefix.len() <= s.len() && s.take(prefix.len() as int) == prefix
}

/// Whether `s` begins with the bytes of `prefix`.
pub fn starts_with(s: &[u8], prefix: &[u8]) -> (r: bool)
    ensures
        r == has_prefix(s@, prefix@),
{
    if prefix.len() > s.len() {
        return false;
    }
    let mut i: usize = 0;
    while i < prefix.len()
        invariant
            i <= prefix@.len() <= s@.len(),
            s@.take(i as int) == prefix@.take(i as int),
        decreases prefix@.len() - i,
    {
        if s[i] != prefix[i] {
            assert(s@.take(prefix@.len() as int)[i as int] != prefix@[i as int]);
            return false;
        }
        assert(s@.take(i as int + 1) =~= s@.take(i as int).push(s@[i as int]));
        assert(prefix@.take(i as int + 1) =~= prefix@.take(i as int).push(prefix@[i as int]));
        i = i + 1;
    }
    assert(prefix@.take(prefix@.len() as int) =~= prefix@);
    true
}

/// The text that a lossy UTF-8 decoding makes of `bytes`: the characters that
/// well-formed parts encode, and U+FFFD in place of each ill-formed part.
pub uninterp spec fn utf8_lossy(bytes: Seq<u8>) -> Seq<char>;

/// Decodes `bytes` as UTF-8, never failing.
///
/// Calls `String::from_utf8_lossy` of the standard library, which this crate
/// does not verify. The contract names its result and claims one thing more,
/// as the function's documentation does: bytes that are valid UTF-8 come
/// back as the very string they encode.
#[verifier::external_body]
pub(crate) fn lossy_text(bytes: &[u8]) -> (text: String)
    ensures
        text@ == utf8_lossy(bytes@),
        valid_utf8(bytes@) ==> text@ == decode_utf8(bytes@),
{
    String::from_utf8_lossy(bytes).into_owned()
}

} // verus!
