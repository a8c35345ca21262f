//! Text as sequences of characters: splitting, trimming, and the tokens of
//! the range expressions (decimal years, month names and numerals).

use vstd::prelude::*;
use vstd::string::StrSliceExecFns;
use crate::types::{Month, Year};

verus! {

/// The pieces of a text between the occurrences of a separator. A text
/// without the separator is one piece; an empty text is one empty piece.
pub open spec fn pieces(s: Seq<char>, sep: char) -> Seq<Seq<char>>
    decreases s.len(),
{
    if s.len() == 0 {
        seq![Seq::empty()]
    } else {
        let before = pieces(s.drop_last(), sep);
        if s.last() == sep {
            before.push(Seq::empty())
        } else {
            before.update(before.len() - 1, before.last().push(s.last()))
        }
    }
}

/// The characters that count as white space: those with the Unicode
/// property White_Space.
pub open spec fn is_space(c: char) -> bool {
    let n = c as u32;
    (0x09 <= n <= 0x0D) || n == 0x20 || n == 0x85 || n == 0xA0 || n == 0x1680 || (0x2000 <= n
        <= 0x200A) || n == 0x2028 || n == 0x2029 || n == 0x202F || n == 0x205F || n == 0x3000
}

/// A text without its leading white space.
pub open spec fn trimmed_start(s: Seq<char>) -> Seq<char>
    decreases s.len(),
{
    if s.len() > 0 && is_space(s[0]) {
        trimmed_start(s.drop_first())
    } else {
        s
    }
}

/// A text without its trailing white space.
pub open spec fn trimmed_end(s: Seq<char>) -> Seq<char>
    decreases s.len(),
{
    if s.len() > 0 && is_space(s.last()) {
        trimmed_end(s.drop_last())
    } else {
        s
    }
}

/// A text without its leading and trailing white space.
pub open spec fn trimmed(s: Seq<char>) -> Seq<char> {
    trimmed_end(trimmed_start(s))
}

/// Whether a character is a decimal digit.
pub open spec fn is_digit(c: char) -> bool {
    '0' <= c <= '9'
}

/// The number that a sequence of decimal digits writes.
pub open spec fn decimal_value(s: Seq<char>) -> int
    decreases s.len(),
{
    if s.len() == 0 {
        0
    } else {
        decimal_value(s.drop_last()) * 10 + (s.last() as u32 - '0' as u32)
    }
}

/// Whether every character of a text is a decimal digit.
pub open spec fn all_digits(s: Seq<char>) -> bool {
    forall|i: int| 0 <= i < s.len() ==> is_digit(#[trigger] s[i])
}

/// The digits of a year token: the token without a leading plus sign.
pub open spec fn unsigned_part(s: Seq<char>) -> Seq<char> {
    if s.len() > 0 && s[0] == '+' {
        s.drop_first()
    } else {
        s
    }
}

/// The year that a token writes: an optional plus sign and then one or more
/// decimal digits, with a value of at most 65535.
pub open spec fn year_token(s: Seq<char>) -> Option<Year> {
    let digits = unsigned_part(s);
    if digits.len() > 0 && all_digits(digits) && decimal_value(digits) <= u16::MAX {
        Some(decimal_value(digits) as Year)
    } else {
        None
    }
}

/// A character with an upper-case ASCII letter replaced by its lower-case
/// form.
pub open spec fn lower(c: char) -> char {
    if 'A' <= c <= 'Z' {
        ((c as u8) + 32) as char
    } else {
        c
    }
}

/// A text with its upper-case ASCII letters replaced by lower-case ones.
pub open spec fn lowered(s: Seq<char>) -> Seq<char> {
    Seq::new(s.len(), |i: int| lower(s[i]))
}

/// The month that a token names: a full English name, its first three
/// letters, or the month's number in one or two digits; letters in either
/// case.
pub open spec fn month_token(s: Seq<char>) -> Option<Month> {
    let w = lowered(s);
    if w == "jan"@ || w == "january"@ || w == "1"@ || w == "01"@ {
        Some(Month::January)
    } else if w == "feb"@ || w == "february"@ || w == "2"@ || w == "02"@ {
        Some(Month::February)
    } else if w == "mar"@ || w == "march"@ || w == "3"@ || w == "03"@ {
        Some(Month::March)
    } else if w == "apr"@ || w == "april"@ || w == "4"@ || w == "04"@ {
        Some(Month::April)
    } else if w == "may"@ || w == "5"@ || w == "05"@ {
        Some(Month::May)
    } else if w == "jun"@ || w == "june"@ || w == "6"@ || w == "06"@ {
        Some(Month::June)
    } else if w == "jul"@ || w == "july"@ || w == "7"@ || w == "07"@ {
        Some(Month::July)
    } else if w == "aug"@ || w == "august"@ || w == "8"@ || w == "08"@ {
        Some(Month::August)
    } else if w == "sep"@ || w == "september"@ || w == "9"@ || w == "09"@ {
        Some(Month::September)
    } else if w == "oct"@ || w == "october"@ || w == "10"@ {
        Some(Month::October)
    } else if w == "nov"@ || w == "november"@ || w == "11"@ {
        Some(Month::November)
    } else if w == "dec"@ || w == "december"@ || w == "12"@ {
        Some(Month::December)
    } else {
        None
    }
}

/// The index of the first occurrence of a character in a text, or the
/// length of the text when it does not occur.
pub open spec fn first_index(s: Seq<char>, c: char) -> int
    decreases s.len(),
{
    if s.len() == 0 || s[0] == c {
        0
    } else {
        1 + first_index(s.drop_first(), c)
    }
}

/// Returns the characters of a string.
pub fn chars_of(s: &str) -> (r: Vec<char>)
    ensures
        r@ == s@,
{
    let n = s.unicode_len();
    let mut out: Vec<char> = Vec::with_capacity(n);
    let mut i: usize = 0;
    while i < n
        invariant
            n == s@.len(),
            i <= n,
            out@ == s@.subrange(0, i as int),
        decreases n - i,
    {
        out.push(s.get_char(i));
        i += 1;
        assert(out@ =~= s@.subrange(0, i as int));
    }
    assert(s@.subrange(0, n as int) =~= s@);
    out
}

/// Returns the characters of `s` from index `lo` up to, not including,
/// index `hi`.
pub fn slice_chars(s: &Vec<char>, lo: usize, hi: usize) -> (r: Vec<char>)
    requires
        lo <= hi <= s@.len(),
    ensures
        r@ == s@.subrange(lo as int, hi as int),
{
    let mut out: Vec<char> = Vec::with_capacity(hi - lo);
    let mut i: usize = lo;
    while i < hi
        invariant
            lo <= i <= hi <= s@.len(),
            out@ == s@.subrange(lo as int, i as int),
        decreases hi - i,
    {
        out.push(s[i]);
        i += 1;
        assert(out@ =~= s@.subrange(lo as int, i as int));
    }
    out
}

/// Returns the index of the first occurrence of `c` in `s`, or `None` when
/// `c` does not occur.
pub fn find_char(s: &Vec<char>, c: char) -> (r: Option<usize>)
    ensures
        r matches Some(i) ==> i < s@.len() && s@[i as int] == c && first_index(s@, c) == i,
        r is None ==> !s@.contains(c) && first_index(s@, c) == s@.len(),
        forall|j: int| 0 <= j < first_index(s@, c) && j < s@.len() ==> s@[j] != c,
{
    let mut i: usize = 0;
    while i < s.len()
        invariant
            i <= s@.len(),
            forall|j: int| 0 <= j < i ==> s@[j] != c,
        decreases s@.len() - i,
    {
        if s[i] == c {
            proof {
                lemma_first_index(s@, c, i as int);
            }
            return Some(i);
        }
        i += 1;
    }
    proof {
        lemma_first_index(s@, c, s@.len() as int);
    }
    None
}

/// The first occurrence of a character is where it occurs with no
/// occurrence before.
pub proof fn lemma_first_index(s: Seq<char>, c: char, i: int)
    requires
        0 <= i <= s.len(),
        forall|j: int| 0 <= j < i ==> s[j] != c,
        i < s.len() ==> s[i] == c,
    ensures
        first_index(s, c) == i,
    decreases s.len(),
{
    if s.len() == 0 || s[0] == c {
    } else {
        let rest = s.drop_first();
        assert forall|j: int| 0 <= j < i - 1 implies rest[j] != c by {
            assert(rest[j] == s[j + 1]);
        }
        lemma_first_index(rest, c, i - 1);
    }
}

/// Returns the pieces of `s` between the occurrences of `sep`.
pub fn split_chars(s: &Vec<char>, sep: char) -> (r: Vec<Vec<char>>)
    ensures
        r@.len() == pieces(s@, sep).len(),
        forall|k: int| 0 <= k < r@.len() ==> (#[trigger] r@[k])@ == pieces(s@, sep)[k],
{
    let mut done: Vec<Vec<char>> = Vec::new();
    let mut current: Vec<char> = Vec::new();
    let mut i: usize = 0;
    assert(s@.subrange(0, 0) =~= Seq::<char>::empty());
    while i < s.len()
        invariant
            i <= s@.len(),
            pieces(s@.subrange(0, i as int), sep).len() == done@.len() + 1,
            pieces(s@.subrange(0, i as int), sep).last() == current@,
            forall|k: int|
                0 <= k < done@.len() ==> (#[trigger] done@[k])@ == pieces(
                    s@.subrange(0, i as int),
                    sep,
                )[k],
        decreases s@.len() - i,
    {
        let ghost seen = s@.subrange(0, i as int);
        let ghost now = s@.subrange(0, i as int + 1);
        assert(now.drop_last() =~= seen);
        assert(now.last() == s@[i as int]);
        if s[i] == sep {
            done.push(current);
            current = Vec::new();
        } else {
            current.push(s[i]);
        }
        i += 1;
    }
    assert(s@.subrange(0, s@.len() as int) =~= s@);
    done.push(current);
    done
}

/// Returns whether a character is white space.
pub fn is_space_char(c: char) -> (r: bool)
    ensures
        r == is_space(c),
{
    let n = c as u32;
    (0x09 <= n && n <= 0x0D) || n == 0x20 || n == 0x85 || n == 0xA0 || n == 0x1680 || (0x2000
        <= n && n <= 0x200A) || n == 0x2028 || n == 0x2029 || n == 0x202F || n == 0x205F || n
        == 0x3000
}

/// Removing leading white space from a text whose first `k` characters are
/// white space.
proof fn lemma_trimmed_start(s: Seq<char>, k: int)
    requires
        0 <= k <= s.len(),
        forall|j: int| 0 <= j < k ==> is_space(#[trigger] s[j]),
    ensures
        trimmed_start(s) == trimmed_start(s.subrange(k, s.len() as int)),
    decreases k,
{
    if k == 0 {
        assert(s.subrange(0, s.len() as int) =~= s);
    } else {
        let rest = s.drop_first();
        assert forall|j: int| 0 <= j < k - 1 implies is_space(#[trigger] rest[j]) by {
            assert(rest[j] == s[j + 1]);
        }
        lemma_trimmed_start(rest, k - 1);
        assert(rest.subrange(k - 1, rest.len() as int) =~= s.subrange(k, s.len() as int));
    }
}

/// Removing trailing white space from a text whose characters from index
/// `k` on are white space.
proof fn lemma_trimmed_end(s: Seq<char>, k: int)
    requires
        0 <= k <= s.len(),
        forall|j: int| k <= j < s.len() ==> is_space(#[trigger] s[j]),
    ensures
        trimmed_end(s) == trimmed_end(s.subrange(0, k)),
    decreases s.len() - k,
{
    if k == s.len() {
        assert(s.subrange(0, k) =~= s);
    } else {
        let rest = s.drop_last();
        lemma_trimmed_end(rest, k);
        assert(rest.subrange(0, k) =~= s.subrange(0, k));
    }
}

/// Returns `s` without its leading and trailing white space.
pub fn trim_chars(s: &Vec<char>) -> (r: Vec<char>)
    ensures
        r@ == trimmed(s@),
{
    let mut lo: usize = 0;
    while lo < s.len() && is_space_char(s[lo])
        invariant
            lo <= s@.len(),
            forall|j: int| 0 <= j < lo ==> is_space(#[trigger] s@[j]),
        decreases s@.len() - lo,
    {
        lo += 1;
    }
    let mut hi: usize = s.len();
    while hi > lo && is_space_char(s[hi - 1])
        invariant
            lo <= hi <= s@.len(),
            forall|j: int| hi <= j < s@.len() ==> is_space(#[trigger] s@[j]),
        decreases hi,
    {
        hi -= 1;
    }
    proof {
        let tail = s@.subrange(lo as int, s@.len() as int);
        lemma_trimmed_start(s@, lo as int);
        assert(trimmed_start(tail) == tail) by {
            if tail.len() > 0 {
                assert(tail[0] == s@[lo as int]);
            }
        }
        assert forall|j: int| hi - lo <= j < tail.len() implies is_space(#[trigger] tail[j]) by {
            assert(tail[j] == s@[j + lo]);
        }
        lemma_trimmed_end(tail, hi - lo);
        let body = tail.subrange(0, hi - lo);
        assert(body =~= s@.subrange(lo as int, hi as int));
        assert(trimmed_end(body) == body) by {
            if body.len() > 0 {
                assert(body.last() == s@[hi - 1]);
            }
        }
    }
    slice_chars(s, lo, hi)
}

/// The value of a sequence of digits is at least the value of each of its
/// prefixes.
proof fn lemma_decimal_value_grows(s: Seq<char>, k: int)
    requires
        0 <= k <= s.len(),
        all_digits(s),
    ensures
        0 <= decimal_value(s.subrange(0, k)) <= decimal_value(s),
    decreases s.len() - k,
{
    if k == s.len() {
        assert(s.subrange(0, k) =~= s);
        lemma_decimal_value_nonnegative(s);
    } else {
        let rest = s.drop_last();
        assert(all_digits(rest)) by {
            assert forall|i: int| 0 <= i < rest.len() implies is_digit(#[trigger] rest[i]) by {
                assert(rest[i] == s[i]);
            }
        }
        lemma_decimal_value_grows(rest, k);
        assert(rest.subrange(0, k) =~= s.subrange(0, k));
        assert(is_digit(s[s.len() - 1]));
    }
}

/// The value of a sequence of digits is not negative.
proof fn lemma_decimal_value_nonnegative(s: Seq<char>)
    requires
        all_digits(s),
    ensures
        0 <= decimal_value(s),
    decreases s.len(),
{
    if s.len() > 0 {
        let rest = s.drop_last();
        assert forall|i: int| 0 <= i < rest.len() implies is_digit(#[trigger] rest[i]) by {
            assert(rest[i] == s[i]);
        }
        lemma_decimal_value_nonnegative(rest);
        assert(is_digit(s[s.len() - 1]));
    }
}

/// Returns the year that the token writes, or `None` when the token is not
/// an optional plus sign followed by digits that write a number up to
/// 65535.
pub fn parse_year_chars(s: &Vec<char>) -> (r: Option<Year>)
    ensures
        r == year_token(s@),
{
    let start: usize = if s.len() > 0 && s[0] == '+' {
        1
    } else {
        0
    };
    let ghost digits = unsigned_part(s@);
    assert(digits =~= s@.subrange(start as int, s@.len() as int));
    if start == s.len() {
        return None;
    }
    let mut value: u32 = 0;
    let mut i: usize = start;
    assert(digits.subrange(0, 0) =~= Seq::<char>::empty());
    while i < s.len()
        invariant
            start <= i <= s@.len(),
            digits == s@.subrange(start as int, s@.len() as int),
            digits == unsigned_part(s@),
            all_digits(digits.subrange(0, i - start)),
            value == decimal_value(digits.subrange(0, i - start)),
            value <= u16::MAX,
        decreases s@.len() - i,
    {
        let c = s[i];
        let ghost seen = digits.subrange(0, i - start);
        let ghost now = digits.subrange(0, i - start + 1);
        proof {
            assert(now.drop_last() =~= seen);
            assert(now.last() == c);
            assert(digits[i - start] == c);
        }
        if !('0' <= c && c <= '9') {
            assert(!all_digits(digits));
            return None;
        }
        assert(all_digits(now)) by {
            assert forall|j: int| 0 <= j < now.len() implies is_digit(#[trigger] now[j]) by {
                if j < seen.len() {
                    assert(now[j] == seen[j]);
                }
            }
        }
        value = value * 10 + (c as u32 - '0' as u32);
        if value > 65535 {
            proof {
                if all_digits(digits) {
                    lemma_decimal_value_grows(digits, i - start + 1);
                }
            }
            return None;
        }
        i += 1;
    }
    assert(digits.subrange(0, digits.len() as int) =~= digits);
    Some(value as u16)
}

/// Returns a character with an upper-case ASCII letter replaced by its
/// lower-case form.
pub fn lower_char(c: char) -> (r: char)
    ensures
        r == lower(c),
{
    if 'A' <= c && c <= 'Z' {
        ((c as u8) + 32) as char
    } else {
        c
    }
}

/// Returns whether `s`, with its ASCII letters in lower case, is `word`.
pub fn word_is(s: &Vec<char>, word: &str) -> (r: bool)
    ensures
        r == (lowered(s@) == word@),
{
    let n = word.unicode_len();
    if s.len() != n {
        return false;
    }
    let mut i: usize = 0;
    while i < n
        invariant
            n == word@.len(),
            n == s@.len(),
            i <= n,
            forall|j: int| 0 <= j < i ==> lowered(s@)[j] == word@[j],
        decreases n - i,
    {
        if lower_char(s[i]) != word.get_char(i) {
            assert(lowered(s@)[i as int] != word@[i as int]);
            return false;
        }
        i += 1;
    }
    assert(lowered(s@) =~= word@);
    true
}

/// Returns the month that the token names, or `None` when it names none.
pub fn parse_month_chars(s: &Vec<char>) -> (r: Option<Month>)
    ensures
        r == month_token(s@),
{
    if word_is(s, "jan") || word_is(s, "january") || word_is(s, "1") || word_is(s, "01") {
        Some(Month::January)
    } else if word_is(s, "feb") || word_is(s, "february") || word_is(s, "2") || word_is(s, "02") {
        Some(Month::February)
    } else if word_is(s, "mar") || word_is(s, "march") || word_is(s, "3") || word_is(s, "03") {
        Some(Month::March)
    } else if word_is(s, "apr") || word_is(s, "april") || word_is(s, "4") || word_is(s, "04") {
        Some(Month::April)
    } else if word_is(s, "may") || word_is(s, "5") || word_is(s, "05") {
        Some(Month::May)
    } else if word_is(s, "jun") || word_is(s, "june") || word_is(s, "6") || word_is(s, "06") {
        Some(Month::June)
    } else if word_is(s, "jul") || word_is(s, "july") || word_is(s, "7") || word_is(s, "07") {
        Some(Month::July)
    } else if word_is(s, "aug") || word_is(s, "august") || word_is(s, "8") || word_is(s, "08") {
        Some(Month::August)
    } else if word_is(s, "sep") || word_is(s, "september") || word_is(s, "9") || word_is(s, "09") {
        Some(Month::September)
    } else if word_is(s, "oct") || word_is(s, "october") || word_is(s, "10") {
        Some(Month::October)
    } else if word_is(s, "nov") || word_is(s, "november") || word_is(s, "11") {
        Some(Month::November)
    } else if word_is(s, "dec") || word_is(s, "december") || word_is(s, "12") {
        Some(Month::December)
    } else {
        None
    }
}

impl Month {
    /// Returns the month that the text names: a full English name, its
    /// first three letters, or the month's number in one or two digits;
    /// letters in either case.
    pub fn from_str(s: &str) -> (r: Result<Month, ()>)
        ensures
            r == (match month_token(s@) {
                Some(m) => Ok::<Month, ()>(m),
                None => Err::<Month, ()>(()),
            }),
    {
        let chars = chars_of(s);
        match parse_month_chars(&chars) {
            Some(m) => Ok(m),
            None => Err(()),
        }
    }
}

} // verus!
