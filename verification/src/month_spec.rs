//! Sets of months written as a single month, an inclusive range or an
//! explicit list.

use vstd::prelude::*;
use core::ops::RangeInclusive;
use crate::keys::{
    ascending_keys, feed_keys, insert_key, key_set, lemma_keys_determined, same_keys,
};
use crate::ranges::{ascending_pairs, holds_pair, pair_key};
use crate::text::{
    chars_of, find_char, month_token, parse_month_chars, parse_year_chars, pieces, split_chars,
    trim_chars, trimmed, year_token,
};
use crate::types::{CalendarError, Month, Year};
use crate::year_spec::{is_greatest, is_least, lemma_bounds_of_union};

verus! {

/// What kind of range expression a text looks like.
#[derive(Debug, PartialEq, Eq, Structural, Clone, Copy)]
pub enum SpecType {
    Single,
    Range,
    List,
    Invalid,
}

/// The kind of a text: a single value where it writes a month or a year;
/// else a range where it holds a hyphen; else a list where it holds a
/// comma; else invalid.
pub open spec fn spec_type_text(s: Seq<char>) -> SpecType {
    if month_token(s) is Some || year_token(s) is Some {
        SpecType::Single
    } else if s.contains('-') {
        SpecType::Range
    } else if s.contains(',') {
        SpecType::List
    } else {
        SpecType::Invalid
    }
}

/// Returns the kind of the characters of a text.
pub fn spec_type_of(s: &Vec<char>) -> (r: SpecType)
    ensures
        r == spec_type_text(s@),
{
    if parse_month_chars(s).is_some() {
        return SpecType::Single;
    }
    if parse_year_chars(s).is_some() {
        return SpecType::Single;
    }
    if find_char(s, '-').is_some() {
        return SpecType::Range;
    }
    if find_char(s, ',').is_some() {
        return SpecType::List;
    }
    SpecType::Invalid
}

impl SpecType {
    /// Returns the kind of range expression that the text looks like.
    pub fn from_str(input: &str) -> (r: Result<Self, ()>)
        ensures
            r == Ok::<SpecType, ()>(spec_type_text(input@)),
    {
        let s = chars_of(input);
        Ok(spec_type_of(&s))
    }
}

/// A set of months in one of three shapes.
#[derive(Debug)]
pub enum MonthSpec {
    /// One month.
    Single(Month),
    /// The months from the start of the range to its end, both included.
    Range(RangeInclusive<Month>),
    /// The months of the list, in any order and with or without repeats.
    List(Vec<Month>),
}

/// The mathematical content of a `MonthSpec`: its shape, and its months as
/// ordinals from 1 to 12.
pub enum MonthShape {
    Single(int),
    Range(int, int),
    List(Set<int>),
}

/// The ordinal of the month after the one with the given ordinal, with
/// January after December.
pub open spec fn ordinal_after(i: int) -> int {
    if i >= 12 {
        1
    } else {
        i + 1
    }
}

/// The ordinal of the month before the one with the given ordinal, with
/// December before January.
pub open spec fn ordinal_before(i: int) -> int {
    if i <= 1 {
        12
    } else {
        i - 1
    }
}

impl MonthShape {
    /// The ordinals of the months that the shape denotes.
    pub open spec fn months(self) -> Set<int> {
        match self {
            MonthShape::Single(m) => set![m],
            MonthShape::Range(a, b) => Set::new(|i: int| a <= i <= b),
            MonthShape::List(s) => s,
        }
    }

    /// The shape one month later: a single month and the bounds of a range
    /// step to the next month, and past December to January; of a list,
    /// each month but December steps to the next, and December leaves.
    pub open spec fn next(self) -> MonthShape {
        match self {
            MonthShape::Single(m) => MonthShape::Single(ordinal_after(m)),
            MonthShape::Range(a, b) => MonthShape::Range(ordinal_after(a), ordinal_after(b)),
            MonthShape::List(s) => MonthShape::List(
                Set::new(|i: int| 2 <= i <= 12 && s.contains(i - 1)),
            ),
        }
    }

    /// The shape one month earlier: a single month and the bounds of a
    /// range step to the month before, and before January to December; of
    /// a list, each month but January steps back, and January leaves.
    pub open spec fn prev(self) -> MonthShape {
        match self {
            MonthShape::Single(m) => MonthShape::Single(ordinal_before(m)),
            MonthShape::Range(a, b) => MonthShape::Range(ordinal_before(a), ordinal_before(b)),
            MonthShape::List(s) => MonthShape::List(
                Set::new(|i: int| 1 <= i <= 11 && s.contains(i + 1)),
            ),
        }
    }

    /// The shape after `n` steps to the next month.
    pub open spec fn advanced(self, n: nat) -> MonthShape
        decreases n,
    {
        if n == 0 {
            self
        } else {
            self.advanced((n - 1) as nat).next()
        }
    }

    /// The shape after `n` steps to the month before.
    pub open spec fn retreated(self, n: nat) -> MonthShape
        decreases n,
    {
        if n == 0 {
            self
        } else {
            self.retreated((n - 1) as nat).prev()
        }
    }
}

/// The ordinals of the months of a list.
pub open spec fn ordinals_of(months: Seq<Month>) -> Set<int> {
    Set::new(|i: int| exists|k: int| 0 <= k < months.len() && (#[trigger] months[k]).index() == i)
}

impl View for MonthSpec {
    type V = MonthShape;

    open spec fn view(&self) -> MonthShape {
        match self {
            MonthSpec::Single(m) => MonthShape::Single(m.index()),
            MonthSpec::Range(r) => MonthShape::Range(r@.start.index(), r@.end.index()),
            MonthSpec::List(months) => MonthShape::List(ordinals_of(months@)),
        }
    }
}

/// The smallest shape that spans two sets of ordinals: from the least of
/// either to the greatest of either; as a list when `as_list`, as a range
/// otherwise.
pub open spec fn spans_months(shape: MonthShape, a: Set<int>, b: Set<int>, as_list: bool) -> bool {
    exists|lo: int, hi: int|
        is_least(a.union(b), lo) && is_greatest(a.union(b), hi) && shape == (if as_list {
            MonthShape::List(Set::new(|i: int| lo <= i <= hi))
        } else {
            MonthShape::Range(lo, hi)
        })
}

/// The months that the pieces of a list name, each piece without the white
/// space around it; `None` when a piece names no month.
pub open spec fn month_list(parts: Seq<Seq<char>>) -> Option<Set<int>>
    decreases parts.len(),
{
    if parts.len() == 0 {
        Some(Set::empty())
    } else {
        match (month_list(parts.drop_last()), month_token(trimmed(parts.last()))) {
            (Some(s), Some(m)) => Some(s.insert(m.index())),
            _ => None,
        }
    }
}

/// What a text writes as a set of months: a month; or two months around a
/// single hyphen as a range; or months between commas as a list. `None`
/// for any other text.
pub open spec fn month_spec_text(s: Seq<char>) -> Option<MonthShape> {
    match spec_type_text(s) {
        SpecType::Single => match month_token(s) {
            Some(m) => Some(MonthShape::Single(m.index())),
            None => None,
        },
        SpecType::Range => {
            let parts = pieces(s, '-');
            if parts.len() == 2 {
                match (month_token(parts[0]), month_token(parts[1])) {
                    (Some(a), Some(b)) => Some(MonthShape::Range(a.index(), b.index())),
                    _ => None,
                }
            } else {
                None
            }
        },
        SpecType::List => match month_list(pieces(s, ',')) {
            Some(set) => Some(MonthShape::List(set)),
            None => None,
        },
        SpecType::Invalid => None,
    }
}

/// A list of which a piece names no month names no set of months.
proof fn lemma_month_list_fails(parts: Seq<Seq<char>>, k: int)
    requires
        0 < k <= parts.len(),
        month_list(parts.subrange(0, k)) is None,
    ensures
        month_list(parts) is None,
    decreases parts.len() - k,
{
    if k == parts.len() {
        assert(parts.subrange(0, k) =~= parts);
    } else {
        let next = parts.subrange(0, k + 1);
        assert(next.drop_last() =~= parts.subrange(0, k));
        lemma_month_list_fails(parts, k + 1);
    }
}

/// The ordinals of a list after one more month.
proof fn lemma_ordinals_push(months: Seq<Month>, m: Month)
    ensures
        ordinals_of(months.push(m)) == ordinals_of(months).insert(m.index()),
{
    let now = months.push(m);
    assert forall|i: int| ordinals_of(now).contains(i) implies ordinals_of(months).insert(
        m.index(),
    ).contains(i) by {
        let k = choose|k: int| 0 <= k < now.len() && (#[trigger] now[k]).index() == i;
        if k < months.len() {
            assert(months[k].index() == i);
        }
    }
    assert forall|i: int| ordinals_of(months).insert(m.index()).contains(i) implies ordinals_of(
        now,
    ).contains(i) by {
        if i == m.index() {
            assert(now[months.len() as int].index() == i);
        } else {
            let k = choose|k: int| 0 <= k < months.len() && (#[trigger] months[k]).index() == i;
            assert(now[k].index() == i);
        }
    }
    assert(ordinals_of(now) =~= ordinals_of(months).insert(m.index()));
}

/// Returns the month with the given ordinal.
fn month_of(ordinal: u32) -> (r: Month)
    requires
        1 <= ordinal <= 12,
    ensures
        r == Month::of_index(ordinal as int),
        r.index() == ordinal,
{
    match Month::from_index(ordinal as u8) {
        Some(m) => m,
        None => Month::January,
    }
}

impl Clone for MonthSpec {
    /// Returns an expression of the same shape and months.
    fn clone(&self) -> (r: Self)
        ensures
            r@ == self@,
    {
        match self {
            MonthSpec::Single(m) => MonthSpec::Single(*m),
            MonthSpec::Range(range) => MonthSpec::Range(*range.start()..=*range.end()),
            MonthSpec::List(months) => {
                let mut copy: Vec<Month> = Vec::with_capacity(months.len());
                let mut i: usize = 0;
                while i < months.len()
                    invariant
                        i <= months@.len(),
                        copy@ == months@.subrange(0, i as int),
                    decreases months@.len() - i,
                {
                    copy.push(months[i]);
                    i += 1;
                    assert(copy@ =~= months@.subrange(0, i as int));
                }
                assert(months@.subrange(0, months@.len() as int) =~= months@);
                MonthSpec::List(copy)
            },
        }
    }
}

impl MonthSpec {
    /// Returns the ordinals of the months that the expression denotes,
    /// in ascending order: the form in which expressions are compared.
    pub fn keys(&self) -> (r: Vec<u32>)
        ensures
            ascending_keys(r@),
            key_set(r@) == self@.months(),
            forall|i: int| 0 <= i < r@.len() ==> 1 <= #[trigger] r@[i] <= 12,
    {
        match self {
            MonthSpec::Single(m) => {
                let mut out: Vec<u32> = Vec::new();
                out.push(m.to_index() as u32);
                assert(key_set(out@) =~= self@.months()) by {
                    assert(out@[0] == m.index());
                }
                out
            },
            MonthSpec::Range(range) => {
                let start: u32 = range.start().to_index() as u32;
                let end: u32 = range.end().to_index() as u32;
                let mut out: Vec<u32> = Vec::new();
                if start > end {
                    assert(key_set(out@) =~= self@.months());
                    return out;
                }
                let mut i: u32 = start;
                while i <= end
                    invariant
                        1 <= start <= i <= end + 1,
                        end <= 12,
                        out@.len() == i - start,
                        forall|k: int| 0 <= k < out@.len() ==> out@[k] == start + k,
                    decreases end + 1 - i,
                {
                    out.push(i);
                    i += 1;
                }
                assert(key_set(out@) =~= self@.months()) by {
                    assert forall|v: int| self@.months().contains(v) implies key_set(
                        out@,
                    ).contains(v) by {
                        assert(out@[v - start] == v);
                    }
                }
                out
            },
            MonthSpec::List(months) => {
                let mut out: Vec<u32> = Vec::new();
                let mut i: usize = 0;
                assert(key_set(out@) =~= ordinals_of(months@.subrange(0, 0)));
                while i < months.len()
                    invariant
                        i <= months@.len(),
                        ascending_keys(out@),
                        key_set(out@) == ordinals_of(months@.subrange(0, i as int)),
                    decreases months@.len() - i,
                {
                    proof {
                        lemma_ordinals_push(months@.subrange(0, i as int), months@[i as int]);
                        assert(months@.subrange(0, i as int).push(months@[i as int])
                            =~= months@.subrange(0, i + 1));
                    }
                    insert_key(&mut out, months[i].to_index() as u32);
                    i += 1;
                }
                assert(months@.subrange(0, months@.len() as int) =~= months@);
                assert forall|k: int| 0 <= k < out@.len() implies 1 <= #[trigger] out@[k] <= 12 by {
                    assert(key_set(out@).contains(out@[k] as int));
                    let j = choose|j: int|
                        0 <= j < months@.len() && (#[trigger] months@[j]).index() == out@[k];
                }
                out
            },
        }
    }

    /// Returns whether the text looks like a month, a range or a list: it
    /// writes a month or a year, or holds a hyphen or a comma.
    pub fn is_valid(input: &str) -> (r: bool)
        ensures
            r == (spec_type_text(input@) != SpecType::Invalid),
    {
        let s = chars_of(input);
        match spec_type_of(&s) {
            SpecType::Invalid => false,
            _ => true,
        }
    }

    /// Returns what the text writes: a month, such as `January`, `jan` or
    /// `01`; a range of months around a hyphen, such as `Jan-Mar`; or
    /// months between commas, such as `Jan, Mar, May`. Fails with
    /// `InvalidSpecFormat` for any other text.
    pub fn parse(input: &str) -> (r: Result<MonthSpec, CalendarError>)
        ensures
            month_spec_text(input@) is Some <==> r is Ok,
            r matches Ok(m) ==> Some(m@) == month_spec_text(input@),
            r matches Err(e) ==> e == CalendarError::InvalidSpecFormat,
    {
        let s = chars_of(input);
        match spec_type_of(&s) {
            SpecType::Single => {
                match parse_month_chars(&s) {
                    Some(month) => Ok(MonthSpec::Single(month)),
                    None => Err(CalendarError::InvalidSpecFormat),
                }
            },
            SpecType::Range => {
                let parts = split_chars(&s, '-');
                if parts.len() != 2 {
                    return Err(CalendarError::InvalidSpecFormat);
                }
                let start = parse_month_chars(&parts[0]);
                let end = parse_month_chars(&parts[1]);
                match (start, end) {
                    (Some(a), Some(b)) => Ok(MonthSpec::Range(a..=b)),
                    _ => Err(CalendarError::InvalidSpecFormat),
                }
            },
            SpecType::List => {
                let parts = split_chars(&s, ',');
                let ghost all = pieces(s@, ',');
                let mut months: Vec<Month> = Vec::new();
                let mut k: usize = 0;
                assert(all.subrange(0, 0) =~= Seq::<Seq<char>>::empty());
                assert(ordinals_of(months@) =~= Set::<int>::empty());
                while k < parts.len()
                    invariant
                        k <= parts@.len(),
                        parts@.len() == all.len(),
                        forall|j: int| 0 <= j < parts@.len() ==> (#[trigger] parts@[j])@ == all[j],
                        month_list(all.subrange(0, k as int)) == Some(ordinals_of(months@)),
                        all == pieces(s@, ','),
                        s@ == input@,
                        spec_type_text(s@) == SpecType::List,
                    decreases parts@.len() - k,
                {
                    let ghost seen = all.subrange(0, k as int);
                    let ghost now = all.subrange(0, k as int + 1);
                    proof {
                        assert(now.drop_last() =~= seen);
                        assert(now.last() == all[k as int]);
                    }
                    let token = trim_chars(&parts[k]);
                    match parse_month_chars(&token) {
                        Some(m) => {
                            proof {
                                lemma_ordinals_push(months@, m);
                            }
                            months.push(m);
                        },
                        None => {
                            proof {
                                lemma_month_list_fails(all, k as int + 1);
                            }
                            return Err(CalendarError::InvalidSpecFormat);
                        },
                    }
                    k += 1;
                }
                assert(all.subrange(0, all.len() as int) =~= all);
                Ok(MonthSpec::List(months))
            },
            SpecType::Invalid => Err(CalendarError::InvalidSpecFormat),
        }
    }

    /// Returns the months of the expression in the given year, in
    /// ascending order.
    pub fn to_year_month(&self, year: Year) -> (r: Vec<(Year, Month)>)
        ensures
            ascending_pairs(r@),
            forall|y: int, m: Month|
                holds_pair(r@, y, m) <==> y == year && self@.months().contains(m.index()),
    {
        let months = self.keys();
        let mut out: Vec<(Year, Month)> = Vec::new();
        let mut i: usize = 0;
        while i < months.len()
            invariant
                i <= months@.len(),
                forall|k: int| 0 <= k < months@.len() ==> 1 <= #[trigger] months@[k] <= 12,
                out@.len() == i,
                forall|k: int|
                    0 <= k < i ==> (#[trigger] out@[k]).0 == year && out@[k].1.index()
                        == months@[k],
            decreases months@.len() - i,
        {
            out.push((year, month_of(months[i])));
            i += 1;
        }
        proof {
            assert forall|a: int, b: int| 0 <= a < b < out@.len() implies pair_key(
                #[trigger] out@[a],
            ) < pair_key(#[trigger] out@[b]) by {
                assert(months@[a] < months@[b]);
            }
            assert forall|y: int, m: Month| holds_pair(out@, y, m) implies y == year
                && self@.months().contains(m.index()) by {
                let k = choose|k: int|
                    0 <= k < out@.len() && (#[trigger] out@[k]).0 == y && out@[k].1 == m;
                assert(key_set(months@).contains(months@[k] as int));
            }
            assert forall|y: int, m: Month|
                y == year && self@.months().contains(m.index()) implies holds_pair(
                out@,
                y,
                m,
            ) by {
                assert(key_set(months@).contains(m.index()));
                let k = choose|k: int| 0 <= k < months@.len() && #[trigger] months@[k] == m.index();
                assert(out@[k].1.index() == m.index());
            }
        }
        out
    }

    /// Returns the expression one month later: a single month and the
    /// bounds of a range step to the next month, and past December to
    /// January; of a list, each month but December steps to the next, and
    /// December leaves.
    pub fn next(&self) -> (r: Self)
        ensures
            r@ == self@.next(),
    {
        match self {
            MonthSpec::Single(month) => MonthSpec::Single(
                match month.next() {
                    Some(m) => m,
                    None => Month::January,
                },
            ),
            MonthSpec::Range(range) => {
                let new_start = match range.start().next() {
                    Some(m) => m,
                    None => Month::January,
                };
                let new_end = match range.end().next() {
                    Some(m) => m,
                    None => Month::January,
                };
                MonthSpec::Range(new_start..=new_end)
            },
            MonthSpec::List(months) => {
                let mut moved: Vec<Month> = Vec::new();
                let mut i: usize = 0;
                assert(ordinals_of(moved@) =~= Set::new(
                    |j: int| 2 <= j <= 12 && ordinals_of(months@.subrange(0, 0)).contains(j - 1),
                ));
                while i < months.len()
                    invariant
                        i <= months@.len(),
                        ordinals_of(moved@) == Set::new(
                            |j: int|
                                2 <= j <= 12 && ordinals_of(months@.subrange(0, i as int)).contains(
                                    j - 1,
                                ),
                        ),
                    decreases months@.len() - i,
                {
                    proof {
                        lemma_ordinals_push(months@.subrange(0, i as int), months@[i as int]);
                        assert(months@.subrange(0, i as int).push(months@[i as int])
                            =~= months@.subrange(0, i + 1));
                    }
                    let ghost before = moved@;
                    match months[i].next() {
                        Some(m) => {
                            proof {
                                lemma_ordinals_push(moved@, m);
                            }
                            moved.push(m);
                        },
                        None => {},
                    }
                    assert(ordinals_of(moved@) =~= Set::new(
                        |j: int|
                            2 <= j <= 12 && ordinals_of(months@.subrange(0, i + 1)).contains(j - 1),
                    ));
                    i += 1;
                }
                assert(months@.subrange(0, months@.len() as int) =~= months@);
                MonthSpec::List(moved)
            },
        }
    }

    /// Returns the expression one month earlier: a single month and the
    /// bounds of a range step to the month before, and before January to
    /// December; of a list, each month but January steps back, and January
    /// leaves.
    pub fn prev(&self) -> (r: Self)
        ensures
            r@ == self@.prev(),
    {
        match self {
            MonthSpec::Single(month) => MonthSpec::Single(
                match month.prev() {
                    Some(m) => m,
                    None => Month::December,
                },
            ),
            MonthSpec::Range(range) => {
                let new_start = match range.start().prev() {
                    Some(m) => m,
                    None => Month::December,
                };
                let new_end = match range.end().prev() {
                    Some(m) => m,
                    None => Month::December,
                };
                MonthSpec::Range(new_start..=new_end)
            },
            MonthSpec::List(months) => {
                let mut moved: Vec<Month> = Vec::new();
                let mut i: usize = 0;
                assert(ordinals_of(moved@) =~= Set::new(
                    |j: int| 1 <= j <= 11 && ordinals_of(months@.subrange(0, 0)).contains(j + 1),
                ));
                while i < months.len()
                    invariant
                        i <= months@.len(),
                        ordinals_of(moved@) == Set::new(
                            |j: int|
                                1 <= j <= 11 && ordinals_of(months@.subrange(0, i as int)).contains(
                                    j + 1,
                                ),
                        ),
                    decreases months@.len() - i,
                {
                    proof {
                        lemma_ordinals_push(months@.subrange(0, i as int), months@[i as int]);
                        assert(months@.subrange(0, i as int).push(months@[i as int])
                            =~= months@.subrange(0, i + 1));
                    }
                    match months[i].prev() {
                        Some(m) => {
                            proof {
                                lemma_ordinals_push(moved@, m);
                            }
                            moved.push(m);
                        },
                        None => {},
                    }
                    assert(ordinals_of(moved@) =~= Set::new(
                        |j: int|
                            1 <= j <= 11 && ordinals_of(months@.subrange(0, i + 1)).contains(j + 1),
                    ));
                    i += 1;
                }
                assert(months@.subrange(0, months@.len() as int) =~= months@);
                MonthSpec::List(moved)
            },
        }
    }

    /// Returns the expression after `months` steps to the next month.
    pub fn forward(&self, months: usize) -> (r: Self)
        ensures
            r@ == self@.advanced(months as nat),
    {
        let mut result = self.clone();
        let mut done: usize = 0;
        while done < months
            invariant
                done <= months,
                result@ == self@.advanced(done as nat),
            decreases months - done,
        {
            result = result.next();
            done += 1;
        }
        result
    }

    /// Returns the expression after `months` steps to the month before.
    pub fn backward(&self, months: usize) -> (r: Self)
        ensures
            r@ == self@.retreated(months as nat),
    {
        let mut result = self.clone();
        let mut done: usize = 0;
        while done < months
            invariant
                done <= months,
                result@ == self@.retreated(done as nat),
            decreases months - done,
        {
            result = result.prev();
            done += 1;
        }
        result
    }

    /// Returns the smallest expression that spans the months of `self`
    /// and of `end`: from the earliest month of either to the latest month
    /// of either. It is a list where `self` is one, and a range otherwise.
    /// Where neither holds any month, it is `self`.
    pub fn range_to(&self, end: &Self) -> (r: Self)
        ensures
            self@.months().union(end@.months()) =~= Set::<int>::empty() ==> r@ == self@,
            !(self@.months().union(end@.months()) =~= Set::<int>::empty()) ==> spans_months(
                r@,
                self@.months(),
                end@.months(),
                self@ is List,
            ),
    {
        let a = self.keys();
        let b = end.keys();
        let ghost u = self@.months().union(end@.months());
        if a.len() == 0 && b.len() == 0 {
            assert(u =~= Set::<int>::empty()) by {
                assert forall|v: int| !u.contains(v) by {
                    if key_set(a@).contains(v) {
                        let i = choose|i: int| 0 <= i < a@.len() && #[trigger] a@[i] == v;
                    }
                    if key_set(b@).contains(v) {
                        let i = choose|i: int| 0 <= i < b@.len() && #[trigger] b@[i] == v;
                    }
                }
            }
            return self.clone();
        }
        let lo: u32 = if a.len() == 0 {
            b[0]
        } else if b.len() == 0 {
            a[0]
        } else if a[0] < b[0] {
            a[0]
        } else {
            b[0]
        };
        let hi: u32 = if a.len() == 0 {
            b[b.len() - 1]
        } else if b.len() == 0 {
            a[a.len() - 1]
        } else if a[a.len() - 1] > b[b.len() - 1] {
            a[a.len() - 1]
        } else {
            b[b.len() - 1]
        };
        proof {
            lemma_bounds_of_union(a@, b@, lo as int, hi as int);
            assert(u.contains(lo as int));
        }
        let as_list = match self {
            MonthSpec::List(_) => true,
            _ => false,
        };
        if as_list {
            let mut span: Vec<Month> = Vec::new();
            let mut i: u32 = lo;
            while i <= hi
                invariant
                    1 <= lo <= i <= hi + 1,
                    hi <= 12,
                    span@.len() == i - lo,
                    forall|k: int| 0 <= k < span@.len() ==> (#[trigger] span@[k]).index() == lo + k,
                decreases hi + 1 - i,
            {
                span.push(month_of(i));
                i += 1;
            }
            assert(ordinals_of(span@) =~= Set::new(|i: int| lo as int <= i <= hi as int)) by {
                assert forall|v: int| lo <= v <= hi implies ordinals_of(span@).contains(v) by {
                    assert(span@[v - lo].index() == v);
                }
            }
            let r = MonthSpec::List(span);
            assert(is_least(u, lo as int) && is_greatest(u, hi as int) && r@ == MonthShape::List(
                Set::new(|i: int| lo as int <= i <= hi as int),
            ));
            r
        } else {
            let r = MonthSpec::Range(month_of(lo)..=month_of(hi));
            assert(is_least(u, lo as int) && is_greatest(u, hi as int) && r@ == MonthShape::Range(
                lo as int,
                hi as int,
            ));
            r
        }
    }
}

impl PartialEq for MonthSpec {
    /// Two expressions are equal when they denote the same months,
    /// whatever their shapes.
    fn eq(&self, other: &Self) -> (r: bool) {
        let a = self.keys();
        let b = other.keys();
        proof {
            if self@.months() == other@.months() {
                lemma_keys_determined(a@, b@);
            }
        }
        same_keys(&a, &b)
    }
}

impl vstd::std_specs::cmp::PartialEqSpecImpl for MonthSpec {
    open spec fn obeys_eq_spec() -> bool {
        true
    }

    open spec fn eq_spec(&self, other: &Self) -> bool {
        self@.months() == other@.months()
    }
}

impl Eq for MonthSpec {

}

impl core::hash::Hash for MonthSpec {
    /// Feeds the hasher the ordinals of the months that the expression
    /// denotes, in ascending order, so that equal expressions hash equally
    /// whatever their shapes.
    fn hash<H: core::hash::Hasher>(&self, state: &mut H) {
        let keys = self.keys();
        feed_keys(&keys, state);
    }
}

} // verus!
