//! Byte strings: the searching, splitting, trimming and decimal notation that
//! the wire format is built from.
//!
//! Every executable function here is specified against a spec function on
//! `Seq<u8>`, so that the reader and the writer can state their contracts over
//! plain byte sequences.

use vstd::prelude::*;
use vstd::string::*;

verus! {

/// Carriage return.
pub const CR: u8 = 13;

/// Line feed.
pub const LF: u8 = 10;

/// The space that separates the tokens of a request line.
pub const SP: u8 = 32;

/// The bytes of a string, as they travel on the wire.
pub open spec fn lit(s: &str) -> Seq<u8> {
    s.spec_bytes()
}

/// The line terminator, `"\r\n"`.
pub open spec fn crlf() -> Seq<u8> {
    seq![CR, LF]
}

/// The delimiter between a header's name and its value, `": "`.
pub open spec fn colon_space() -> Seq<u8> {
    seq![58u8, SP]
}

/// `pat` occurs in `s` at index `i`.
pub open spec fn matches_at(s: Seq<u8>, pat: Seq<u8>, i: int) -> bool {
    &&& 0 <= i
    &&& i + pat.len() <= s.len()
    &&& s.subrange(i, i + pat.len()) == pat
}

/// `pat` occurs in `s` at index `i` and nowhere before it.
pub open spec fn is_first_match(s: Seq<u8>, pat: Seq<u8>, i: int) -> bool {
    &&& matches_at(s, pat, i)
    &&& forall|j: int| 0 <= j < i ==> !matches_at(s, pat, j)
}

/// The index of the first occurrence of `pat` in `s`, if there is one.
#[verifier::opaque]
pub open spec fn first_match(s: Seq<u8>, pat: Seq<u8>) -> Option<int> {
    if exists|i: int| is_first_match(s, pat, i) {
        Some(choose|i: int| is_first_match(s, pat, i))
    } else {
        None
    }
}

/// A first occurrence is the first occurrence.
pub proof fn lemma_first_match_is(s: Seq<u8>, pat: Seq<u8>, i: int)
    requires
        is_first_match(s, pat, i),
    ensures
        first_match(s, pat) == Some(i),
{
    reveal(first_match);
    let c = choose|k: int| is_first_match(s, pat, k);
    assert(is_first_match(s, pat, c));
    if c < i {
        assert(!matches_at(s, pat, c));
    }
    if i < c {
        assert(!matches_at(s, pat, i));
    }
}

/// Where `pat` occurs nowhere, there is no first occurrence.
pub proof fn lemma_first_match_none(s: Seq<u8>, pat: Seq<u8>)
    requires
        forall|j: int| !matches_at(s, pat, j),
    ensures
        first_match(s, pat) is None,
{
    reveal(first_match);
}

/// What `first_match` says of the index it gives.
pub proof fn lemma_first_match_some(s: Seq<u8>, pat: Seq<u8>)
    requires
        first_match(s, pat) is Some,
    ensures
        is_first_match(s, pat, first_match(s, pat)->0),
{
    reveal(first_match);
}

/// A pattern that occurs has a first occurrence, no later than any other: so
/// where there is no first occurrence, the pattern occurs nowhere.
pub proof fn law_match_has_first(s: Seq<u8>, pat: Seq<u8>, k: int)
    requires
        matches_at(s, pat, k),
    ensures
        first_match(s, pat) is Some,
        first_match(s, pat)->0 <= k,
    decreases k,
{
    if exists|j: int| 0 <= j < k && matches_at(s, pat, j) {
        let j = choose|j: int| 0 <= j < k && matches_at(s, pat, j);
        law_match_has_first(s, pat, j);
    } else {
        lemma_first_match_is(s, pat, k);
    }
}

/// The first occurrence of `pat` depends only on the bytes up to its end:
/// a sequence that agrees with `a` that far has it at the same index.
pub proof fn lemma_first_match_local(a: Seq<u8>, b: Seq<u8>, pat: Seq<u8>)
    requires
        first_match(a, pat) is Some,
        first_match(a, pat)->0 + pat.len() <= b.len(),
        b.subrange(0, first_match(a, pat)->0 + pat.len()) == a.subrange(
            0,
            first_match(a, pat)->0 + pat.len(),
        ),
    ensures
        first_match(b, pat) == first_match(a, pat),
{
    let i = first_match(a, pat)->0;
    let end = i + pat.len();
    lemma_first_match_some(a, pat);
    assert forall|j: int| 0 <= j <= i implies matches_at(b, pat, j) == matches_at(a, pat, j) by {
        assert(b.subrange(j, j + pat.len()) =~= b.subrange(0, end).subrange(j, j + pat.len()));
        assert(a.subrange(j, j + pat.len()) =~= a.subrange(0, end).subrange(j, j + pat.len()));
    }
    lemma_first_match_is(b, pat, i);
}

/// A sequence cut off before the end of the first occurrence of `pat` holds
/// no occurrence at all.
pub proof fn lemma_first_match_cut(s: Seq<u8>, pat: Seq<u8>, k: int)
    requires
        first_match(s, pat) is Some,
        0 <= k < first_match(s, pat)->0 + pat.len(),
        k <= s.len(),
    ensures
        first_match(s.subrange(0, k), pat) is None,
{
    let i = first_match(s, pat)->0;
    let cut = s.subrange(0, k);
    lemma_first_match_some(s, pat);
    assert forall|j: int| !matches_at(cut, pat, j) by {
        if matches_at(cut, pat, j) {
            assert(cut.subrange(j, j + pat.len()) =~= s.subrange(j, j + pat.len()));
            assert(matches_at(s, pat, j));
        }
    }
    lemma_first_match_none(cut, pat);
}

/// `prefix` is how `s` begins.
pub open spec fn starts_with(s: Seq<u8>, prefix: Seq<u8>) -> bool {
    matches_at(s, prefix, 0)
}

/// The pieces of `s` between the occurrences of the byte `sep`. There is
/// always at least one piece; two separators in a row enclose an empty one.
pub open spec fn split(s: Seq<u8>, sep: u8) -> Seq<Seq<u8>>
    decreases s.len(),
{
    match first_match(s, seq![sep]) {
        Some(i) => if 0 <= i < s.len() {
            seq![s.subrange(0, i)] + split(s.skip(i + 1), sep)
        } else {
            seq![s]
        },
        None => seq![s],
    }
}

/// Whitespace as far as trimming goes: tab, line feed, vertical tab, form
/// feed, carriage return and space.
pub open spec fn is_space(b: u8) -> bool {
    (9 <= b && b <= 13) || b == SP
}

/// `s` without the whitespace it begins with.
pub open spec fn trim_start(s: Seq<u8>) -> Seq<u8>
    decreases s.len(),
{
    if s.len() > 0 && is_space(s[0]) {
        trim_start(s.skip(1))
    } else {
        s
    }
}

/// `s` without the whitespace it ends with.
pub open spec fn trim_end(s: Seq<u8>) -> Seq<u8>
    decreases s.len(),
{
    if s.len() > 0 && is_space(s.last()) {
        trim_end(s.drop_last())
    } else {
        s
    }
}

/// `s` without the whitespace at either end.
pub open spec fn trim(s: Seq<u8>) -> Seq<u8> {
    trim_end(trim_start(s))
}

/// An ASCII decimal digit.
pub open spec fn is_digit(b: u8) -> bool {
    48 <= b && b <= 57
}

/// Every byte of `s` is a decimal digit.
pub open spec fn all_digits(s: Seq<u8>) -> bool {
    forall|i: int| 0 <= i < s.len() ==> is_digit(#[trigger] s[i])
}

/// The number that the digits `s` denote in base ten; zero for no digits.
pub open spec fn digits_value(s: Seq<u8>) -> nat
    decreases s.len(),
{
    if s.len() == 0 {
        0
    } else {
        (digits_value(s.drop_last()) * 10 + (s.last() - 48)) as nat
    }
}

/// `n` in base ten, without leading zeros.
pub open spec fn decimal(n: nat) -> Seq<u8>
    decreases n,
{
    if n < 10 {
        seq![(48 + n) as u8]
    } else {
        decimal(n / 10).push((48 + n % 10) as u8)
    }
}

/// Decimal notation consists of digits and denotes the number it was made
/// from: a length that is written out is read back as the same length.
pub proof fn law_decimal_round_trip(n: nat)
    ensures
        decimal(n).len() >= 1,
        all_digits(decimal(n)),
        digits_value(decimal(n)) == n,
    decreases n,
{
    if n < 10 {
        let d = decimal(n);
        assert(d.drop_last() =~= Seq::<u8>::empty());
        assert(digits_value(d.drop_last()) == 0);
    } else {
        law_decimal_round_trip(n / 10);
        let d = decimal(n);
        assert(d.drop_last() =~= decimal(n / 10));
    }
}

/// Whether two byte strings are the same.
pub fn bytes_eq(a: &[u8], b: &[u8]) -> (same: bool)
    ensures
        same == (a@ == b@),
{
    if a.len() != b.len() {
        return false;
    }
    let mut i: usize = 0;
    while i < a.len()
        invariant
            a@.len() == b@.len(),
            i <= a@.len(),
            forall|j: int| 0 <= j < i ==> a@[j] == b@[j],
        decreases a@.len() - i,
    {
        if a[i] != b[i] {
            return false;
        }
        i += 1;
    }
    assert(a@ =~= b@);
    true
}

/// Whether `pat` occurs in `s` at index `at`.
pub fn occurs_at(s: &[u8], pat: &[u8], at: usize) -> (found: bool)
    ensures
        found == matches_at(s@, pat@, at as int),
{
    if at > s.len() || pat.len() > s.len() - at {
        return false;
    }
    let mut k: usize = 0;
    while k < pat.len()
        invariant
            at + pat@.len() <= s@.len() <= usize::MAX,
            k <= pat@.len(),
            forall|j: int| 0 <= j < k ==> s@[at + j] == pat@[j],
        decreases pat@.len() - k,
    {
        if s[at + k] != pat[k] {
            assert(s@.subrange(at as int, at + pat@.len())[k as int] == s@[at + k]);
            return false;
        }
        k += 1;
    }
    assert(s@.subrange(at as int, at + pat@.len()) =~= pat@);
    true
}

/// Whether `s` begins with `prefix`.
pub fn has_prefix(s: &[u8], prefix: &[u8]) -> (found: bool)
    ensures
        found == starts_with(s@, prefix@),
{
    occurs_at(s, prefix, 0)
}

/// The index of the first occurrence of `pat` in `s`.
pub fn find(s: &[u8], pat: &[u8]) -> (found: Option<usize>)
    ensures
        match found {
            Some(i) => first_match(s@, pat@) == Some(i as int),
            None => first_match(s@, pat@) is None,
        },
{
    if pat.len() > s.len() {
        proof {
            lemma_first_match_none(s@, pat@);
        }
        return None;
    }
    let last: usize = s.len() - pat.len();
    let mut i: usize = 0;
    loop
        invariant
            last == s@.len() - pat@.len(),
            i <= last,
            forall|j: int| 0 <= j < i ==> !matches_at(s@, pat@, j),
        decreases last - i,
    {
        if occurs_at(s, pat, i) {
            proof {
                lemma_first_match_is(s@, pat@, i as int);
            }
            return Some(i);
        }
        if i == last {
            proof {
                lemma_first_match_none(s@, pat@);
            }
            return None;
        }
        i += 1;
    }
}

/// A pattern of one byte occurs exactly where that byte stands.
pub proof fn lemma_matches_byte(s: Seq<u8>, b: u8, i: int)
    ensures
        matches_at(s, seq![b], i) == (0 <= i < s.len() && s[i] == b),
{
    if 0 <= i < s.len() {
        if s[i] == b {
            assert(s.subrange(i, i + 1) =~= seq![b]);
        } else {
            assert(s.subrange(i, i + 1)[0] == s[i]);
        }
    }
}

/// Splitting at the first separator: the piece before it, then the pieces of
/// what follows it.
pub proof fn lemma_split_at_first(s: Seq<u8>, sep: u8, i: int)
    requires
        first_match(s, seq![sep]) == Some(i),
    ensures
        0 <= i < s.len(),
        s[i] == sep,
        split(s, sep) == seq![s.subrange(0, i)] + split(s.skip(i + 1), sep),
{
    lemma_first_match_some(s, seq![sep]);
    lemma_matches_byte(s, sep, i);
}

/// The index of the first occurrence of the byte `b` in `s`.
pub fn find_byte(s: &[u8], b: u8) -> (found: Option<usize>)
    ensures
        match found {
            Some(i) => first_match(s@, seq![b]) == Some(i as int),
            None => first_match(s@, seq![b]) is None,
        },
{
    let mut i: usize = 0;
    while i < s.len()
        invariant
            i <= s@.len(),
            forall|j: int| 0 <= j < i ==> !matches_at(s@, seq![b], j),
        decreases s@.len() - i,
    {
        proof {
            lemma_matches_byte(s@, b, i as int);
        }
        if s[i] == b {
            proof {
                lemma_first_match_is(s@, seq![b], i as int);
            }
            return Some(i);
        }
        i += 1;
    }
    proof {
        assert forall|j: int| !matches_at(s@, seq![b], j) by {
            lemma_matches_byte(s@, b, j);
        }
        lemma_first_match_none(s@, seq![b]);
    }
    None
}

/// The terminator and the delimiter, written as literals.
pub proof fn lemma_lit_delimiters()
    ensures
        lit("\r\n") == crlf(),
        lit(": ") == colon_space(),
{
    reveal_strlit("\r\n");
    reveal_strlit(": ");
    assert(is_ascii("\r\n"));
    assert(is_ascii(": "));
    is_ascii_spec_bytes("\r\n");
    is_ascii_spec_bytes(": ");
    assert(lit("\r\n") =~= crlf());
    assert(lit(": ") =~= colon_space());
}

/// The part of `s` that is left when the whitespace at both ends is taken
/// away.
pub fn trimmed(s: &[u8]) -> (t: &[u8])
    ensures
        t@ == trim(s@),
{
    let mut start: usize = 0;
    assert(s@.skip(0) =~= s@);
    while start < s.len() && is_space_byte(s[start])
        invariant
            start <= s@.len(),
            trim_start(s@) == trim_start(s@.skip(start as int)),
        decreases s@.len() - start,
    {
        assert(s@.skip(start as int).skip(1) =~= s@.skip(start + 1));
        start += 1;
    }
    let ghost front = s@.skip(start as int);
    assert(trim_start(s@) == front);
    let mut end: usize = s.len();
    while end > start && is_space_byte(s[end - 1])
        invariant
            start <= end <= s@.len(),
            front == s@.skip(start as int),
            trim_end(front) == trim_end(s@.subrange(start as int, end as int)),
        decreases end,
    {
        assert(s@.subrange(start as int, end as int).drop_last() =~= s@.subrange(
            start as int,
            end - 1,
        ));
        end -= 1;
    }
    assert(front =~= s@.subrange(start as int, s@.len() as int));
    vstd::slice::slice_subrange(s, start, end)
}

/// Whether `b` is whitespace.
pub fn is_space_byte(b: u8) -> (r: bool)
    ensures
        r == is_space(b),
{
    (9 <= b && b <= 13) || b == SP
}

/// Appends the bytes of `s` to `out`.
pub fn append(out: &mut Vec<u8>, s: &[u8])
    ensures
        final(out)@ == old(out)@ + s@,
{
    let mut i: usize = 0;
    while i < s.len()
        invariant
            i <= s@.len(),
            out@ == old(out)@ + s@.subrange(0, i as int),
        decreases s@.len() - i,
    {
        out.push(s[i]);
        assert(s@.subrange(0, i + 1) =~= s@.subrange(0, i as int).push(s@[i as int]));
        i += 1;
    }
    assert(s@.subrange(0, s@.len() as int) =~= s@);
}

/// Appends `n`, in decimal, to `out`.
pub fn append_decimal(out: &mut Vec<u8>, n: usize)
    ensures
        final(out)@ == old(out)@ + decimal(n as nat),
    decreases n,
{
    if n >= 10 {
        append_decimal(out, n / 10);
    }
    let digit: u8 = 48 + (n % 10) as u8;
    out.push(digit);
    proof {
        if n < 10 {
            assert(old(out)@.push(digit) =~= old(out)@ + decimal(n as nat));
        } else {
            assert((old(out)@ + decimal((n / 10) as nat)).push(digit) =~= old(out)@ + decimal(
                n as nat,
            ));
        }
    }
}

} // verus!
