//! Token scanning over raw bytes: searching for a delimiter, skipping optional
//! whitespace, and reading an unsigned decimal number.
//!
//! Every scanner here has a mathematical counterpart over `Seq<u8>`; the
//! executable functions are proved to compute exactly that counterpart.

use vstd::prelude::*;
use vstd::slice::slice_subrange;

verus! {

pub const SPACE: u8 = 0x20;

pub const TAB: u8 = 0x09;

pub const CR: u8 = 0x0d;

pub const LF: u8 = 0x0a;

pub const COLON: u8 = 0x3a;

pub const PLUS: u8 = 0x2b;

/// The one-byte delimiter that ends the method and the path token.
pub open spec fn space_bytes() -> Seq<u8> {
    seq![SPACE]
}

/// The two-byte line terminator.
pub open spec fn crlf_bytes() -> Seq<u8> {
    seq![CR, LF]
}

/// The one-byte delimiter between a header's name and its value.
pub open spec fn colon_bytes() -> Seq<u8> {
    seq![COLON]
}

/// Optional whitespace is made of spaces and horizontal tabs.
pub open spec fn is_space(b: u8) -> bool {
    b == SPACE || b == TAB
}

/// `pat` stands in `s` at index `i`.
pub open spec fn occurs_at(s: Seq<u8>, pat: Seq<u8>, i: int) -> bool {
    &&& 0 <= i
    &&& i + pat.len() <= s.len()
    &&& s.subrange(i, i + pat.len()) == pat
}

/// `pat` stands in `s` at index `i` and at no smaller index.
pub open spec fn is_first_occurrence(s: Seq<u8>, pat: Seq<u8>, i: int) -> bool {
    &&& occurs_at(s, pat, i)
    &&& forall|j: int| 0 <= j < i ==> !occurs_at(s, pat, j)
}

/// The smallest index at which `pat` stands in `s`, if it stands anywhere.
pub open spec fn first_occurrence(s: Seq<u8>, pat: Seq<u8>) -> Option<int> {
    if exists|i: int| occurs_at(s, pat, i) {
        Some(choose|i: int| is_first_occurrence(s, pat, i))
    } else {
        None
    }
}

/// A first occurrence is the first occurrence: the index is unique.
pub proof fn lemma_first_occurrence_is(s: Seq<u8>, pat: Seq<u8>, i: int)
    requires
        is_first_occurrence(s, pat, i),
    ensures
        first_occurrence(s, pat) == Some(i),
{
    let c = choose|c: int| is_first_occurrence(s, pat, c);
    assert(is_first_occurrence(s, pat, c));
    if c < i {
        assert(!occurs_at(s, pat, c));
    } else if i < c {
        assert(!occurs_at(s, pat, i));
    }
}

/// Where a pattern is found, it is found at a first occurrence.
pub proof fn lemma_first_occurrence_some(s: Seq<u8>, pat: Seq<u8>)
    requires
        first_occurrence(s, pat) is Some,
    ensures
        is_first_occurrence(s, pat, first_occurrence(s, pat)->0),
{
    let w = choose|i: int| occurs_at(s, pat, i);
    lemma_least_occurrence(s, pat, w, 0);
}

/// Below any occurrence there is a least one.
proof fn lemma_least_occurrence(s: Seq<u8>, pat: Seq<u8>, w: int, from: int)
    requires
        occurs_at(s, pat, w),
        0 <= from <= w,
        forall|j: int| 0 <= j < from ==> !occurs_at(s, pat, j),
    ensures
        exists|i: int| is_first_occurrence(s, pat, i),
    decreases w - from,
{
    if occurs_at(s, pat, from) {
        assert(is_first_occurrence(s, pat, from));
    } else {
        lemma_least_occurrence(s, pat, w, from + 1);
    }
}

/// Splits `s` at the first occurrence of `pat`: the bytes after the pattern
/// and the bytes before it, in that order. `None` where `pat` does not occur.
pub open spec fn capture_until(s: Seq<u8>, pat: Seq<u8>) -> Option<(Seq<u8>, Seq<u8>)> {
    match first_occurrence(s, pat) {
        Some(i) => Some((s.skip(i + pat.len()), s.take(i))),
        None => None,
    }
}

/// What `capture_until` returns puts the input back together: the captured
/// bytes, the pattern, the rest.
pub proof fn lemma_capture_until(s: Seq<u8>, pat: Seq<u8>)
    requires
        capture_until(s, pat) is Some,
    ensures
        ({
            let (rest, captured) = capture_until(s, pat)->0;
            &&& s == captured + pat + rest
            &&& is_first_occurrence(s, pat, captured.len() as int)
            &&& first_occurrence(s, pat) == Some(captured.len() as int)
        }),
{
    lemma_first_occurrence_some(s, pat);
    let i = first_occurrence(s, pat)->0;
    let (rest, captured) = capture_until(s, pat)->0;
    assert(s.subrange(i, i + pat.len()) == pat);
    assert(s =~= captured + s.subrange(i, i + pat.len()) + rest);
}

/// `rest` is what remains of `s` after some prefix of it.
pub open spec fn is_suffix(s: Seq<u8>, rest: Seq<u8>) -> bool {
    &&& rest.len() <= s.len()
    &&& rest == s.skip(s.len() - rest.len())
}

/// What `capture_until` leaves is a remainder of its input.
pub proof fn lemma_capture_until_suffix(s: Seq<u8>, pat: Seq<u8>)
    requires
        capture_until(s, pat) is Some,
    ensures
        is_suffix(s, (capture_until(s, pat)->0).0),
        (capture_until(s, pat)->0).0.len() + pat.len() <= s.len(),
{
    lemma_first_occurrence_some(s, pat);
    let rest = (capture_until(s, pat)->0).0;
    assert(rest =~= s.skip(s.len() - rest.len()));
}

/// What `skip_spaces` leaves is a remainder of its input.
pub proof fn lemma_skip_spaces_suffix(s: Seq<u8>)
    ensures
        is_suffix(s, skip_spaces(s)),
{
    lemma_leading_spaces(s);
    let rest = skip_spaces(s);
    assert(rest =~= s.skip(s.len() - rest.len()));
}

/// The number of whitespace bytes at the start of `s`.
pub open spec fn leading_spaces(s: Seq<u8>) -> nat
    decreases s.len(),
{
    if s.len() > 0 && is_space(s[0]) {
        1 + leading_spaces(s.drop_first())
    } else {
        0
    }
}

/// `s` without its leading whitespace.
pub open spec fn skip_spaces(s: Seq<u8>) -> Seq<u8> {
    s.skip(leading_spaces(s) as int)
}

/// The leading whitespace of `s` is the longest prefix made of spaces and tabs.
pub proof fn lemma_leading_spaces(s: Seq<u8>)
    ensures
        leading_spaces(s) <= s.len(),
        forall|k: int| 0 <= k < leading_spaces(s) ==> is_space(#[trigger] s[k]),
        leading_spaces(s) < s.len() ==> !is_space(s[leading_spaces(s) as int]),
    decreases s.len(),
{
    if s.len() > 0 && is_space(s[0]) {
        let t = s.drop_first();
        lemma_leading_spaces(t);
        assert forall|k: int| 0 <= k < leading_spaces(s) implies is_space(#[trigger] s[k]) by {
            if k > 0 {
                assert(s[k] == t[k - 1]);
            }
        }
        if leading_spaces(s) < s.len() {
            assert(s[leading_spaces(s) as int] == t[leading_spaces(t) as int]);
        }
    }
}

/// A prefix of `n` whitespace bytes that ends at a non-whitespace byte, or at
/// the end of `s`, is the leading whitespace.
pub proof fn lemma_leading_spaces_is(s: Seq<u8>, n: int)
    requires
        0 <= n <= s.len(),
        forall|k: int| 0 <= k < n ==> is_space(#[trigger] s[k]),
        n < s.len() ==> !is_space(s[n]),
    ensures
        leading_spaces(s) == n,
    decreases s.len(),
{
    if n > 0 {
        let t = s.drop_first();
        assert(is_space(s[0]));
        assert forall|k: int| 0 <= k < n - 1 implies is_space(#[trigger] t[k]) by {
            assert(t[k] == s[k + 1]);
        }
        lemma_leading_spaces_is(t, n - 1);
    }
}

/// Tells whether `pat` stands in `input` at index `i`.
pub fn matches_at(input: &[u8], pat: &[u8], i: usize) -> (r: bool)
    requires
        i + pat@.len() <= input@.len(),
    ensures
        r == occurs_at(input@, pat@, i as int),
{
    let n: usize = input.len();
    let mut k: usize = 0;
    while k < pat.len()
        invariant
            k <= pat@.len(),
            i + pat@.len() <= input@.len(),
            n == input@.len(),
            forall|m: int| 0 <= m < k ==> input@[i + m] == #[trigger] pat@[m],
        decreases pat@.len() - k,
    {
        if input[i + k] != pat[k] {
            proof {
                let sub = input@.subrange(i as int, i + pat@.len());
                assert(sub[k as int] == input@[i + k]);
            }
            return false;
        }
        k += 1;
    }
    assert(input@.subrange(i as int, i + pat@.len()) =~= pat@);
    true
}

/// The index of the first occurrence of `pat` in `input`.
pub fn find_first(input: &[u8], pat: &[u8]) -> (r: Option<usize>)
    ensures
        match r {
            Some(i) => first_occurrence(input@, pat@) == Some(i as int),
            None => first_occurrence(input@, pat@) is None,
        },
{
    if pat.len() > input.len() {
        return None;
    }
    let last: usize = input.len() - pat.len();
    let mut i: usize = 0;
    loop
        invariant
            i <= last,
            last + pat@.len() == input@.len(),
            forall|j: int| 0 <= j < i ==> !occurs_at(input@, pat@, j),
        decreases last - i,
    {
        if matches_at(input, pat, i) {
            proof {
                lemma_first_occurrence_is(input@, pat@, i as int);
            }
            return Some(i);
        }
        if i == last {
            return None;
        }
        i += 1;
    }
}

/// Captures the bytes up to the first occurrence of `termination_bytes` and
/// consumes the terminator too. Returns the rest of the input and the
/// captured bytes, or `None` where the terminator does not occur.
pub fn capture_all_till_and_including_termination_character<'a>(
    input: &'a [u8],
    termination_bytes: &[u8],
) -> (r: Option<(&'a [u8], &'a [u8])>)
    ensures
        match r {
            Some((rest, captured)) => capture_until(input@, termination_bytes@) == Some(
                (rest@, captured@),
            ),
            None => capture_until(input@, termination_bytes@) is None,
        },
{
    match find_first(input, termination_bytes) {
        Some(i) => {
            proof {
                lemma_first_occurrence_some(input@, termination_bytes@);
            }
            let end: usize = input.len();
            let captured = slice_subrange(input, 0, i);
            let rest = slice_subrange(input, i + termination_bytes.len(), end);
            Some((rest, captured))
        },
        None => None,
    }
}

/// Captures the bytes up to the next space and consumes the space.
pub fn capture_all_till_and_including_space(input: &[u8]) -> (r: Option<(&[u8], &[u8])>)
    ensures
        match r {
            Some((rest, captured)) => capture_until(input@, space_bytes()) == Some(
                (rest@, captured@),
            ),
            None => capture_until(input@, space_bytes()) is None,
        },
{
    let pat: [u8; 1] = [SPACE];
    assert(pat@ =~= space_bytes());
    capture_all_till_and_including_termination_character(input, pat.as_slice())
}

/// Captures the bytes up to the next CRLF and consumes the CRLF.
pub fn capture_all_till_and_including_crlf(input: &[u8]) -> (r: Option<(&[u8], &[u8])>)
    ensures
        match r {
            Some((rest, captured)) => capture_until(input@, crlf_bytes()) == Some(
                (rest@, captured@),
            ),
            None => capture_until(input@, crlf_bytes()) is None,
        },
{
    let pat: [u8; 2] = [CR, LF];
    assert(pat@ =~= crlf_bytes());
    capture_all_till_and_including_termination_character(input, pat.as_slice())
}

/// Consumes the whitespace at the start of `input`. Returns what follows it
/// and the whitespace itself.
pub fn skip_whitespaces0(input: &[u8]) -> (r: (&[u8], &[u8]))
    ensures
        r.0@ == skip_spaces(input@),
        r.1@ == input@.take(leading_spaces(input@) as int),
{
    let mut n: usize = 0;
    while n < input.len() && (input[n] == SPACE || input[n] == TAB)
        invariant
            n <= input@.len(),
            forall|k: int| 0 <= k < n ==> is_space(#[trigger] input@[k]),
        decreases input@.len() - n,
    {
        n += 1;
    }
    proof {
        lemma_leading_spaces_is(input@, n as int);
    }
    (slice_subrange(input, n, input.len()), slice_subrange(input, 0, n))
}

/// An ASCII decimal digit.
pub open spec fn is_digit(b: u8) -> bool {
    0x30 <= b <= 0x39
}

pub open spec fn all_digits(s: Seq<u8>) -> bool {
    forall|i: int| 0 <= i < s.len() ==> is_digit(#[trigger] s[i])
}

/// The number that a run of decimal digits writes, most significant first.
pub open spec fn digits_value(s: Seq<u8>) -> nat
    decreases s.len(),
{
    if s.len() == 0 {
        0
    } else {
        digits_value(s.drop_last()) * 10 + (s.last() - 0x30) as nat
    }
}

/// The number that `s` writes in decimal: an optional `+`, then one or more
/// ASCII digits and nothing else. Leading zeros are accepted.
pub open spec fn unsigned_decimal(s: Seq<u8>) -> Option<nat> {
    let digits = if s.len() > 0 && s[0] == PLUS {
        s.drop_first()
    } else {
        s
    };
    if digits.len() > 0 && all_digits(digits) {
        Some(digits_value(digits))
    } else {
        None
    }
}

/// `unsigned_decimal`, where the number fits in a `usize`.
pub open spec fn parse_usize_spec(s: Seq<u8>) -> Option<usize> {
    match unsigned_decimal(s) {
        Some(n) => if n <= usize::MAX {
            Some(n as usize)
        } else {
            None
        },
        None => None,
    }
}

/// More digits never write a smaller number.
pub proof fn lemma_digits_value_prefix(s: Seq<u8>, k: int)
    requires
        0 <= k <= s.len(),
    ensures
        digits_value(s.take(k)) <= digits_value(s),
    decreases s.len(),
{
    if k == s.len() {
        assert(s.take(k) =~= s);
    } else {
        let t = s.drop_last();
        assert(t.take(k) =~= s.take(k));
        lemma_digits_value_prefix(t, k);
    }
}

/// Reads an unsigned decimal number that fits in a `usize`.
pub fn parse_usize(text: &[u8]) -> (r: Option<usize>)
    ensures
        r == parse_usize_spec(text@),
{
    let n: usize = text.len();
    let start: usize = if n > 0 && text[0] == PLUS {
        1
    } else {
        0
    };
    if start == n {
        return None;
    }
    let ghost digits = if text@.len() > 0 && text@[0] == PLUS {
        text@.drop_first()
    } else {
        text@
    };
    assert(digits =~= text@.skip(start as int));
    let mut value: usize = 0;
    let mut i: usize = start;
    while i < n
        invariant
            start <= i <= n,
            n == text@.len(),
            digits == text@.skip(start as int),
            digits.len() > 0,
            digits == if text@.len() > 0 && text@[0] == PLUS {
                text@.drop_first()
            } else {
                text@
            },
            all_digits(digits.take(i - start)),
            value == digits_value(digits.take(i - start)),
        decreases n - i,
    {
        let b: u8 = text[i];
        if b < 0x30 || b > 0x39 {
            assert(!is_digit(digits[i - start]));
            return None;
        }
        let ghost next = digits.take(i + 1 - start);
        proof {
            assert(next.drop_last() =~= digits.take(i - start));
            assert(next.last() == b);
            assert forall|j: int| 0 <= j < next.len() implies is_digit(#[trigger] next[j]) by {
                if j < i - start {
                    assert(next[j] == digits.take(i - start)[j]);
                }
            }
            lemma_digits_value_prefix(digits, i + 1 - start);
        }
        let digit: usize = (b - 0x30) as usize;
        let scaled: usize = match value.checked_mul(10) {
            Some(v) => v,
            None => {
                return None;
            },
        };
        value = match scaled.checked_add(digit) {
            Some(v) => v,
            None => {
                return None;
            },
        };
        i += 1;
    }
    assert(digits.take(i - start) =~= digits);
    Some(value)
}

} // verus!
