//! Sets of years written as a single year, an inclusive range or an
//! explicit set.

use vstd::prelude::*;
use core::ops::RangeInclusive;
use std::collections::HashSet;
use vstd::std_specs::iter::IteratorSpec;
use crate::keys::{
    ascending_keys, feed_keys, insert_key, key_set, lemma_keys_determined, same_keys,
};
use crate::ranges::{ascending_pairs, holds_pair, pair_key};
use crate::text::{
    chars_of, find_char, first_index, parse_year_chars, pieces, slice_chars, split_chars,
    trim_chars, trimmed, year_token,
};
use crate::types::{Month, Year};

verus! {

broadcast use vstd::std_specs::hash::group_hash_axioms;

/// A set of years in one of three shapes.
#[derive(Debug)]
pub enum YearSpec {
    /// One year.
    Single(Year),
    /// The years from the start of the range to its end, both included.
    Range(RangeInclusive<Year>),
    /// The years of the set.
    List(HashSet<Year>),
}

/// The mathematical content of a `YearSpec`: its shape and its numbers.
pub enum YearShape {
    Single(int),
    Range(int, int),
    List(Set<int>),
}

impl YearShape {
    /// The years that the shape denotes.
    pub open spec fn years(self) -> Set<int> {
        match self {
            YearShape::Single(y) => set![y],
            YearShape::Range(a, b) => Set::new(|y: int| a <= y <= b),
            YearShape::List(s) => s,
        }
    }

    /// The shape with every number moved by `delta`.
    pub open spec fn shifted(self, delta: int) -> YearShape {
        match self {
            YearShape::Single(y) => YearShape::Single(y + delta),
            YearShape::Range(a, b) => YearShape::Range(a + delta, b + delta),
            YearShape::List(s) => YearShape::List(Set::new(|y: int| s.contains(y - delta))),
        }
    }

    /// Whether every number of the shape, the bounds of a range included,
    /// lies within `lo..=hi`.
    pub open spec fn within(self, lo: int, hi: int) -> bool {
        match self {
            YearShape::Single(y) => lo <= y <= hi,
            YearShape::Range(a, b) => lo <= a <= hi && lo <= b <= hi,
            YearShape::List(s) => forall|y: int| s.contains(y) ==> lo <= y <= hi,
        }
    }

    /// Whether the shape has the form of an explicit set.
    pub open spec fn is_list(self) -> bool {
        self is List
    }
}

/// The years of a hash set, as numbers.
pub open spec fn year_numbers(set: Set<Year>) -> Set<int> {
    Set::new(|y: int| 0 <= y <= u16::MAX && set.contains(y as Year))
}

impl View for YearSpec {
    type V = YearShape;

    open spec fn view(&self) -> YearShape {
        match self {
            YearSpec::Single(y) => YearShape::Single(*y as int),
            YearSpec::Range(r) => YearShape::Range(r@.start as int, r@.end as int),
            YearSpec::List(set) => YearShape::List(year_numbers(set@)),
        }
    }
}

/// Whether `x` is the least number of a set.
pub open spec fn is_least(s: Set<int>, x: int) -> bool {
    s.contains(x) && forall|y: int| s.contains(y) ==> x <= y
}

/// Whether `x` is the greatest number of a set.
pub open spec fn is_greatest(s: Set<int>, x: int) -> bool {
    s.contains(x) && forall|y: int| s.contains(y) ==> y <= x
}

/// The smallest shape that spans two sets of numbers: from the least
/// number of either to the greatest number of either; as an explicit set
/// when `as_list`, as a range otherwise.
pub open spec fn spans(shape: YearShape, a: Set<int>, b: Set<int>, as_list: bool) -> bool {
    exists|lo: int, hi: int|
        is_least(a.union(b), lo) && is_greatest(a.union(b), hi) && shape == (if as_list {
            YearShape::List(Set::new(|y: int| lo <= y <= hi))
        } else {
            YearShape::Range(lo, hi)
        })
}

/// The years that the pieces of a list write, each piece without the white
/// space around it; `None` when a piece writes no year.
pub open spec fn year_list(parts: Seq<Seq<char>>) -> Option<Set<int>>
    decreases parts.len(),
{
    if parts.len() == 0 {
        Some(Set::empty())
    } else {
        match (year_list(parts.drop_last()), year_token(trimmed(parts.last()))) {
            (Some(s), Some(y)) => Some(s.insert(y as int)),
            _ => None,
        }
    }
}

/// What a text writes as a set of years: a year; or two years around the
/// first hyphen, each without the white space around it, as a range; or
/// years between commas as an explicit set. `None` for any other text.
pub open spec fn year_spec_text(s: Seq<char>) -> Option<YearShape> {
    if year_token(s) is Some {
        Some(YearShape::Single(year_token(s).unwrap() as int))
    } else if s.contains('-') {
        let i = first_index(s, '-');
        match (
            year_token(trimmed(s.subrange(0, i))),
            year_token(trimmed(s.subrange(i + 1, s.len() as int))),
        ) {
            (Some(a), Some(b)) => Some(YearShape::Range(a as int, b as int)),
            _ => None,
        }
    } else {
        match year_list(pieces(s, ',')) {
            Some(set) => Some(YearShape::List(set)),
            None => None,
        }
    }
}

/// Returns the years of a set in ascending order.
pub fn sorted_years(set: &HashSet<Year>) -> (r: Vec<u32>)
    ensures
        ascending_keys(r@),
        key_set(r@) == year_numbers(set@),
{
    let mut out: Vec<u32> = Vec::new();
    let ghost all = set.iter().remaining().unref();
    assert(all.to_set() == set@);
    assert(key_set(out@) =~= Set::<int>::empty());
    for y in it: set.iter()
        invariant
            it.seq().unref() == all,
            ascending_keys(out@),
            key_set(out@) == Set::new(
                |v: int| exists|i: int| 0 <= i < it.index() && #[trigger] all[i] == v,
            ),
    {
        let ghost before = key_set(out@);
        let ghost idx = it.index() as int;
        assert(all[idx] == *y);
        insert_key(&mut out, *y as u32);
        assert(key_set(out@) =~= Set::new(
            |v: int| exists|i: int| 0 <= i < idx + 1 && #[trigger] all[i] == v,
        )) by {
            assert forall|v: int| before.insert(*y as int).contains(v) implies exists|i: int|
                0 <= i < idx + 1 && #[trigger] all[i] == v by {
                if v == *y as int {
                    assert(all[idx] == v);
                } else {
                    let i = choose|i: int| 0 <= i < idx && #[trigger] all[i] == v;
                    assert(all[i] == v);
                }
            }
        }
    }
    assert(key_set(out@) =~= year_numbers(set@)) by {
        assert forall|v: int| key_set(out@).contains(v) implies year_numbers(set@).contains(v) by {
            let i = choose|i: int| 0 <= i < all.len() && #[trigger] all[i] == v;
            assert(all.to_set().contains(all[i]));
        }
        assert forall|v: int| year_numbers(set@).contains(v) implies key_set(out@).contains(v) by {
            assert(all.to_set().contains(v as Year));
            let i = choose|i: int| 0 <= i < all.len() && all[i] == v as Year;
            assert(all[i] == v);
        }
    }
    out
}

/// Returns a set with the years of an ascending vector.
pub fn year_set(years: &Vec<u32>) -> (r: HashSet<Year>)
    requires
        forall|i: int| 0 <= i < years@.len() ==> years@[i] <= u16::MAX,
    ensures
        year_numbers(r@) == key_set(years@),
{
    let mut set: HashSet<Year> = HashSet::new();
    let mut i: usize = 0;
    assert(year_numbers(set@) =~= key_set(years@.subrange(0, 0)));
    while i < years.len()
        invariant
            i <= years@.len(),
            forall|i: int| 0 <= i < years@.len() ==> years@[i] <= u16::MAX,
            year_numbers(set@) == key_set(years@.subrange(0, i as int)),
        decreases years@.len() - i,
    {
        let ghost before = set@;
        set.insert(years[i] as Year);
        assert(year_numbers(set@) =~= year_numbers(before).insert(years@[i as int] as int));
        assert(year_numbers(set@) =~= key_set(years@.subrange(0, i + 1))) by {
            let seen = years@.subrange(0, i as int);
            let now = years@.subrange(0, i + 1);
            assert forall|v: int| key_set(now).contains(v) implies key_set(seen).insert(
                years@[i as int] as int,
            ).contains(v) by {
                let j = choose|j: int| 0 <= j < now.len() && #[trigger] now[j] == v;
                if j < i {
                    assert(seen[j] == v);
                }
            }
            assert forall|v: int|
                key_set(seen).insert(years@[i as int] as int).contains(v) implies key_set(
                now,
            ).contains(v) by {
                if v == years@[i as int] as int {
                    assert(now[i as int] == v);
                } else {
                    let j = choose|j: int| 0 <= j < seen.len() && #[trigger] seen[j] == v;
                    assert(now[j] == v);
                }
            }
        }
        i += 1;
    }
    assert(years@.subrange(0, years@.len() as int) =~= years@);
    set
}

impl Clone for YearSpec {
    /// Returns an expression of the same shape and numbers.
    fn clone(&self) -> (r: Self)
        ensures
            r@ == self@,
    {
        match self {
            YearSpec::Single(y) => YearSpec::Single(*y),
            YearSpec::Range(range) => YearSpec::Range(*range.start()..=*range.end()),
            YearSpec::List(set) => {
                let years = sorted_years(set);
                assert forall|i: int| 0 <= i < years@.len() implies years@[i] <= u16::MAX by {
                    assert(key_set(years@).contains(years@[i] as int));
                }
                YearSpec::List(year_set(&years))
            },
        }
    }
}

impl YearSpec {
    /// Returns the years that the expression denotes, in ascending
    /// order: the form in which expressions are compared.
    pub fn keys(&self) -> (r: Vec<u32>)
        ensures
            ascending_keys(r@),
            key_set(r@) == self@.years(),
            forall|i: int| 0 <= i < r@.len() ==> r@[i] <= u16::MAX,
    {
        match self {
            YearSpec::Single(y) => {
                let mut out: Vec<u32> = Vec::new();
                out.push(*y as u32);
                assert(key_set(out@) =~= self@.years()) by {
                    assert(out@[0] == *y as int);
                }
                out
            },
            YearSpec::Range(range) => {
                let start: u32 = *range.start() as u32;
                let end: u32 = *range.end() as u32;
                let mut out: Vec<u32> = Vec::new();
                if start > end {
                    assert(key_set(out@) =~= self@.years());
                    return out;
                }
                let mut y: u32 = start;
                while y <= end
                    invariant
                        start <= y <= end + 1,
                        end <= u16::MAX,
                        out@.len() == y - start,
                        forall|i: int| 0 <= i < out@.len() ==> out@[i] == start + i,
                    decreases end + 1 - y,
                {
                    out.push(y);
                    y += 1;
                }
                assert(key_set(out@) =~= self@.years()) by {
                    assert forall|v: int| self@.years().contains(v) implies key_set(
                        out@,
                    ).contains(v) by {
                        assert(out@[v - start] == v);
                    }
                }
                out
            },
            YearSpec::List(set) => {
                let out = sorted_years(set);
                assert forall|i: int| 0 <= i < out@.len() implies out@[i] <= u16::MAX by {
                    assert(key_set(out@).contains(out@[i] as int));
                }
                out
            },
        }
    }

    /// Returns what the text writes: a year, such as `2023`; an inclusive
    /// range of years around a hyphen, such as `2023-2025`; or a set of
    /// years between commas, such as `2023,2025,2027`. `None` for any
    /// other text.
    pub fn parse(input: &str) -> (r: Option<Self>)
        ensures
            year_spec_text(input@) is Some <==> r is Some,
            r matches Some(y) ==> Some(y@) == year_spec_text(input@),
    {
        let s = chars_of(input);
        if let Some(year) = parse_year_chars(&s) {
            return Some(YearSpec::Single(year));
        }
        if let Some(idx) = find_char(&s, '-') {
            assert(s@.contains('-'));
            let left = trim_chars(&slice_chars(&s, 0, idx));
            let right = trim_chars(&slice_chars(&s, idx + 1, s.len()));
            let start = parse_year_chars(&left);
            let end = parse_year_chars(&right);
            return match (start, end) {
                (Some(a), Some(b)) => Some(YearSpec::Range(a..=b)),
                _ => None,
            };
        }
        let parts = split_chars(&s, ',');
        let mut years: HashSet<Year> = HashSet::new();
        let ghost all = pieces(s@, ',');
        let mut k: usize = 0;
        assert(all.subrange(0, 0) =~= Seq::<Seq<char>>::empty());
        assert(year_numbers(years@) =~= Set::<int>::empty());
        while k < parts.len()
            invariant
                k <= parts@.len(),
                parts@.len() == all.len(),
                forall|j: int| 0 <= j < parts@.len() ==> (#[trigger] parts@[j])@ == all[j],
                year_list(all.subrange(0, k as int)) == Some(year_numbers(years@)),
                all == pieces(s@, ','),
                s@ == input@,
                year_token(s@) is None,
                !s@.contains('-'),
            decreases parts@.len() - k,
        {
            let ghost seen = all.subrange(0, k as int);
            let ghost now = all.subrange(0, k as int + 1);
            proof {
                assert(now.drop_last() =~= seen);
                assert(now.last() == all[k as int]);
            }
            let token = trim_chars(&parts[k]);
            match parse_year_chars(&token) {
                Some(y) => {
                    let ghost before = years@;
                    years.insert(y);
                    assert(year_numbers(years@) =~= year_numbers(before).insert(y as int));
                },
                None => {
                    proof {
                        lemma_year_list_fails(all, k as int + 1);
                    }
                    return None;
                },
            }
            k += 1;
        }
        assert(all.subrange(0, all.len() as int) =~= all);
        Some(YearSpec::List(years))
    }

    /// Returns whether the text writes a set of years.
    pub fn is_valid(input: &str) -> (r: bool)
        ensures
            r == year_spec_text(input@) is Some,
    {
        Self::parse(input).is_some()
    }

    /// Returns every month of every year of the expression, in
    /// ascending order.
    pub fn to_year_month(&self) -> (r: Vec<(Year, Month)>)
        ensures
            ascending_pairs(r@),
            forall|y: int, m: Month| holds_pair(r@, y, m) <==> self@.years().contains(y),
            r@.len() == 12 * self@.years().len(),
    {
        let years = self.keys();
        let mut out: Vec<(Year, Month)> = Vec::new();
        let mut i: usize = 0;
        while i < years.len()
            invariant
                i <= years@.len(),
                forall|j: int| 0 <= j < years@.len() ==> years@[j] <= u16::MAX,
                out@.len() == 12 * i,
                forall|k: int|
                    0 <= k < out@.len() ==> (#[trigger] out@[k]).0 == years@[k / 12] && out@[k].1
                        == Month::of_index(k % 12 + 1),
            decreases years@.len() - i,
        {
            let year = years[i] as Year;
            let mut m: u8 = 1;
            while m <= 12
                invariant
                    1 <= m <= 13,
                    i < years@.len(),
                    year == years@[i as int],
                    out@.len() == 12 * i + (m - 1),
                    forall|k: int|
                        0 <= k < out@.len() ==> (#[trigger] out@[k]).0 == years@[k / 12]
                            && out@[k].1 == Month::of_index(k % 12 + 1),
                decreases 13 - m,
            {
                let month = match Month::from_index(m) {
                    Some(month) => month,
                    None => Month::January,
                };
                out.push((year, month));
                m += 1;
            }
            i += 1;
        }
        proof {
            assert forall|a: int, b: int| 0 <= a < b < out@.len() implies pair_key(
                #[trigger] out@[a],
            ) < pair_key(#[trigger] out@[b]) by {
                if a / 12 < b / 12 {
                    assert(years@[a / 12] < years@[b / 12]);
                }
            }
            assert forall|y: int, m: Month| holds_pair(out@, y, m) implies self@.years().contains(
                y,
            ) by {
                let k = choose|k: int|
                    0 <= k < out@.len() && (#[trigger] out@[k]).0 == y && out@[k].1 == m;
                assert(years@[k / 12] == y);
                assert(key_set(years@).contains(y));
            }
            assert forall|y: int, m: Month| self@.years().contains(y) implies holds_pair(
                out@,
                y,
                m,
            ) by {
                assert(key_set(years@).contains(y));
                let j = choose|j: int| 0 <= j < years@.len() && #[trigger] years@[j] == y;
                let k = 12 * j + m.index() - 1;
                assert(out@[k].0 == years@[k / 12]);
            }
            lemma_key_count(years@);
        }
        out
    }

    /// Returns the expression with every year one later.
    pub fn next(&self) -> (r: Self)
        requires
            self@.within(0, u16::MAX - 1),
        ensures
            r@ == self@.shifted(1),
    {
        match self {
            YearSpec::Single(year) => YearSpec::Single(*year + 1),
            YearSpec::Range(range) => YearSpec::Range((*range.start() + 1)..=(*range.end() + 1)),
            YearSpec::List(set) => {
                let years = sorted_years(set);
                let mut moved: Vec<u32> = Vec::with_capacity(years.len());
                let mut i: usize = 0;
                while i < years.len()
                    invariant
                        i <= years@.len(),
                        key_set(years@) == year_numbers(set@),
                        self@.within(0, u16::MAX - 1),
                        self@ == YearShape::List(year_numbers(set@)),
                        moved@.len() == i,
                        forall|j: int| 0 <= j < i ==> moved@[j] == years@[j] + 1,
                    decreases years@.len() - i,
                {
                    assert(key_set(years@).contains(years@[i as int] as int));
                    moved.push(years[i] + 1);
                    i += 1;
                }
                assert forall|j: int| 0 <= j < moved@.len() implies moved@[j] <= u16::MAX by {
                    assert(key_set(years@).contains(years@[j] as int));
                }
                let new_set = year_set(&moved);
                assert(year_numbers(new_set@) =~= Set::new(
                    |y: int| year_numbers(set@).contains(y - 1),
                )) by {
                    assert forall|v: int| year_numbers(set@).contains(v - 1) implies key_set(
                        moved@,
                    ).contains(v) by {
                        assert(key_set(years@).contains(v - 1));
                        let j = choose|j: int| 0 <= j < years@.len() && #[trigger] years@[j] == v - 1;
                        assert(moved@[j] == v);
                    }
                    assert forall|v: int| key_set(moved@).contains(v) implies year_numbers(
                        set@,
                    ).contains(v - 1) by {
                        let j = choose|j: int| 0 <= j < moved@.len() && #[trigger] moved@[j] == v;
                        assert(key_set(years@).contains(years@[j] as int));
                    }
                }
                YearSpec::List(new_set)
            },
        }
    }

    /// Returns the expression with every year one earlier.
    pub fn prev(&self) -> (r: Self)
        requires
            self@.within(1, 65535),
        ensures
            r@ == self@.shifted(-1),
    {
        match self {
            YearSpec::Single(year) => YearSpec::Single(*year - 1),
            YearSpec::Range(range) => YearSpec::Range((*range.start() - 1)..=(*range.end() - 1)),
            YearSpec::List(set) => {
                let years = sorted_years(set);
                let mut moved: Vec<u32> = Vec::with_capacity(years.len());
                let mut i: usize = 0;
                while i < years.len()
                    invariant
                        i <= years@.len(),
                        key_set(years@) == year_numbers(set@),
                        forall|y: int| year_numbers(set@).contains(y) ==> 1 <= y,
                        moved@.len() == i,
                        forall|j: int| 0 <= j < i ==> moved@[j] == years@[j] - 1,
                    decreases years@.len() - i,
                {
                    assert(key_set(years@).contains(years@[i as int] as int));
                    assert(year_numbers(set@).contains(years@[i as int] as int));
                    assert(years@[i as int] >= 1);
                    moved.push(years[i] - 1);
                    i += 1;
                }
                assert forall|j: int| 0 <= j < moved@.len() implies moved@[j] <= u16::MAX by {
                    assert(key_set(years@).contains(years@[j] as int));
                }
                let new_set = year_set(&moved);
                assert(year_numbers(new_set@) =~= Set::new(
                    |y: int| year_numbers(set@).contains(y - (-1int)),
                )) by {
                    assert forall|v: int| year_numbers(set@).contains(v + 1) implies key_set(
                        moved@,
                    ).contains(v) by {
                        assert(key_set(years@).contains(v + 1));
                        let j = choose|j: int| 0 <= j < years@.len() && #[trigger] years@[j] == v + 1;
                        assert(moved@[j] == v);
                    }
                    assert forall|v: int| key_set(moved@).contains(v) implies year_numbers(
                        set@,
                    ).contains(v + 1) by {
                        let j = choose|j: int| 0 <= j < moved@.len() && #[trigger] moved@[j] == v;
                        assert(key_set(years@).contains(years@[j] as int));
                    }
                }
                YearSpec::List(new_set)
            },
        }
    }
}

impl YearShape {
    /// Moving by `a` and then by `b` is moving by `a + b`.
    pub proof fn lemma_shifted_twice(self, a: int, b: int)
        ensures
            self.shifted(a).shifted(b) == self.shifted(a + b),
            self.shifted(0) == self,
    {
        match self {
            YearShape::List(s) => {
                assert(Set::new(|y: int| Set::new(|z: int| s.contains(z - a)).contains(y - b))
                    =~= Set::new(|y: int| s.contains(y - (a + b))));
                assert(Set::new(|y: int| s.contains(y - 0)) =~= s);
            },
            _ => {},
        }
    }

    /// A shape within bounds stays within the bounds moved with it.
    pub proof fn lemma_shifted_within(self, delta: int, lo: int, hi: int)
        requires
            self.within(lo, hi),
        ensures
            self.shifted(delta).within(lo + delta, hi + delta),
    {
    }
}

impl YearSpec {
    /// Returns the expression with every year `years` later.
    pub fn forward(&self, years: usize) -> (r: Self)
        requires
            self@.within(0, u16::MAX - years),
        ensures
            r@ == self@.shifted(years as int),
    {
        let mut result = self.clone();
        let mut done: usize = 0;
        proof {
            self@.lemma_shifted_twice(0, 0);
        }
        while done < years
            invariant
                done <= years,
                self@.within(0, u16::MAX - years),
                result@ == self@.shifted(done as int),
            decreases years - done,
        {
            proof {
                self@.lemma_shifted_within(done as int, 0, u16::MAX - years);
                self@.lemma_shifted_twice(done as int, 1);
                lemma_within_wider(result@, done as int, u16::MAX - years + done, 0, u16::MAX - 1);
            }
            result = result.next();
            done += 1;
        }
        result
    }

    /// Returns the expression with every year `years` earlier.
    pub fn backward(&self, years: usize) -> (r: Self)
        requires
            self@.within(years as int, u16::MAX as int),
        ensures
            r@ == self@.shifted(-(years as int)),
    {
        let mut result = self.clone();
        let mut done: usize = 0;
        proof {
            self@.lemma_shifted_twice(0, 0);
        }
        while done < years
            invariant
                done <= years,
                self@.within(years as int, u16::MAX as int),
                result@ == self@.shifted(-(done as int)),
            decreases years - done,
        {
            proof {
                self@.lemma_shifted_within(-(done as int), years as int, u16::MAX as int);
                self@.lemma_shifted_twice(-(done as int), -1);
                lemma_within_wider(result@, years - done, u16::MAX - done, 1, 65535);
            }
            result = result.prev();
            done += 1;
        }
        result
    }

    /// Returns the smallest expression that spans the years of `self`
    /// and of `end`: from the least year of either to the greatest year of
    /// either. It is an explicit set where `self` is one, and a range
    /// otherwise. Where neither holds any year, it is `self`.
    pub fn range_to(&self, end: &Self) -> (r: Self)
        ensures
            self@.years().union(end@.years()) =~= Set::<int>::empty() ==> r@ == self@,
            !(self@.years().union(end@.years()) =~= Set::<int>::empty()) ==> spans(
                r@,
                self@.years(),
                end@.years(),
                self@.is_list(),
            ),
    {
        let a = self.keys();
        let b = end.keys();
        let ghost u = self@.years().union(end@.years());
        if a.len() == 0 && b.len() == 0 {
            assert(u =~= Set::<int>::empty()) by {
                assert forall|v: int| !u.contains(v) by {
                    if key_set(a@).contains(v) {
                        let i = choose|i: int| 0 <= i < a@.len() && #[trigger] a@[i] == v;
                    }
                    if key_set(b@).contains(v) {
                        let i = choose|i: int| 0 <= i < b@.len() && #[trigger] b@[i] == v;
                    }
                }
            }
            return self.clone();
        }
        let lo: u32 = if a.len() == 0 {
            b[0]
        } else if b.len() == 0 {
            a[0]
        } else if a[0] < b[0] {
            a[0]
        } else {
            b[0]
        };
        let hi: u32 = if a.len() == 0 {
            b[b.len() - 1]
        } else if b.len() == 0 {
            a[a.len() - 1]
        } else if a[a.len() - 1] > b[b.len() - 1] {
            a[a.len() - 1]
        } else {
            b[b.len() - 1]
        };
        proof {
            lemma_bounds_of_union(a@, b@, lo as int, hi as int);
            assert(u.contains(lo as int));
        }
        let as_list = match self {
            YearSpec::List(_) => true,
            _ => false,
        };
        if as_list {
            let mut span: Vec<u32> = Vec::new();
            let mut y: u32 = lo;
            while y <= hi
                invariant
                    lo <= y <= hi + 1,
                    hi <= u16::MAX,
                    span@.len() == y - lo,
                    forall|i: int| 0 <= i < span@.len() ==> span@[i] == lo + i,
                decreases hi + 1 - y,
            {
                span.push(y);
                y += 1;
            }
            let set = year_set(&span);
            assert(year_numbers(set@) =~= Set::new(|y: int| lo as int <= y <= hi as int)) by {
                assert forall|v: int| lo <= v <= hi implies key_set(span@).contains(v) by {
                    assert(span@[v - lo] == v);
                }
            }
            let r = YearSpec::List(set);
            assert(is_least(u, lo as int) && is_greatest(u, hi as int) && r@ == YearShape::List(
                Set::new(|y: int| lo as int <= y <= hi as int),
            ));
            r
        } else {
            let r = YearSpec::Range((lo as Year)..=(hi as Year));
            assert(is_least(u, lo as int) && is_greatest(u, hi as int) && r@ == YearShape::Range(
                lo as int,
                hi as int,
            ));
            r
        }
    }
}

/// A shape within narrow bounds is within wider ones.
proof fn lemma_within_wider(shape: YearShape, lo: int, hi: int, wide_lo: int, wide_hi: int)
    requires
        shape.within(lo, hi),
        wide_lo <= lo,
        hi <= wide_hi,
    ensures
        shape.within(wide_lo, wide_hi),
{
}

/// The least and the greatest of two ascending key vectors together.
pub proof fn lemma_bounds_of_union(a: Seq<u32>, b: Seq<u32>, lo: int, hi: int)
    requires
        ascending_keys(a),
        ascending_keys(b),
        a.len() > 0 || b.len() > 0,
        a.len() == 0 ==> lo == b[0] && hi == b.last(),
        b.len() == 0 ==> lo == a[0] && hi == a.last(),
        a.len() > 0 && b.len() > 0 ==> lo == (if a[0] < b[0] {
            a[0]
        } else {
            b[0]
        }) && hi == (if a.last() > b.last() {
            a.last()
        } else {
            b.last()
        }),
    ensures
        is_least(key_set(a).union(key_set(b)), lo),
        is_greatest(key_set(a).union(key_set(b)), hi),
{
    let u = key_set(a).union(key_set(b));
    if a.len() > 0 {
        assert(key_set(a).contains(a[0] as int));
        assert(key_set(a).contains(a[a.len() - 1] as int));
    }
    if b.len() > 0 {
        assert(key_set(b).contains(b[0] as int));
        assert(key_set(b).contains(b[b.len() - 1] as int));
    }
    assert forall|v: int| u.contains(v) implies lo <= v <= hi by {
        if key_set(a).contains(v) {
            let i = choose|i: int| 0 <= i < a.len() && #[trigger] a[i] == v;
            if 0 < i {
                assert(a[0] < a[i]);
            }
            if i < a.len() - 1 {
                assert(a[i] < a[a.len() - 1]);
            }
        } else {
            let i = choose|i: int| 0 <= i < b.len() && #[trigger] b[i] == v;
            if 0 < i {
                assert(b[0] < b[i]);
            }
            if i < b.len() - 1 {
                assert(b[i] < b[b.len() - 1]);
            }
        }
    }
}

impl PartialEq for YearSpec {
    /// Two expressions are equal when they denote the same years,
    /// whatever their shapes.
    fn eq(&self, other: &Self) -> (r: bool) {
        let a = self.keys();
        let b = other.keys();
        proof {
            if self@.years() == other@.years() {
                lemma_keys_determined(a@, b@);
            }
        }
        same_keys(&a, &b)
    }
}

impl vstd::std_specs::cmp::PartialEqSpecImpl for YearSpec {
    open spec fn obeys_eq_spec() -> bool {
        true
    }

    open spec fn eq_spec(&self, other: &Self) -> bool {
        self@.years() == other@.years()
    }
}

impl Eq for YearSpec {

}

impl core::hash::Hash for YearSpec {
    /// Feeds the hasher the years that the expression denotes, in
    /// ascending order, so that equal expressions hash equally whatever
    /// their shapes.
    fn hash<H: core::hash::Hasher>(&self, state: &mut H) {
        let keys = self.keys();
        feed_keys(&keys, state);
    }
}

/// A list of which a piece writes no year writes no set of years.
proof fn lemma_year_list_fails(parts: Seq<Seq<char>>, k: int)
    requires
        0 < k <= parts.len(),
        year_list(parts.subrange(0, k)) is None,
    ensures
        year_list(parts) is None,
    decreases parts.len() - k,
{
    if k == parts.len() {
        assert(parts.subrange(0, k) =~= parts);
    } else {
        let next = parts.subrange(0, k + 1);
        assert(next.drop_last() =~= parts.subrange(0, k));
        lemma_year_list_fails(parts, k + 1);
    }
}

/// Strictly ascending keys are as many as the set of them has members.
pub proof fn lemma_key_count(s: Seq<u32>)
    requires
        ascending_keys(s),
    ensures
        key_set(s).finite(),
        key_set(s).len() == s.len(),
    decreases s.len(),
{
    if s.len() == 0 {
        assert(key_set(s) =~= Set::<int>::empty());
    } else {
        let rest = s.drop_last();
        lemma_key_count(rest);
        assert(key_set(s) =~= key_set(rest).insert(s.last() as int)) by {
            assert forall|v: int| key_set(s).contains(v) implies key_set(rest).insert(
                s.last() as int,
            ).contains(v) by {
                let i = choose|i: int| 0 <= i < s.len() && #[trigger] s[i] == v;
                if i < s.len() - 1 {
                    assert(rest[i] == v);
                }
            }
            assert forall|v: int|
                key_set(rest).insert(s.last() as int).contains(v) implies key_set(s).contains(
                v,
            ) by {
                if v == s.last() as int {
                    assert(s[s.len() - 1] == v);
                } else {
                    let i = choose|i: int| 0 <= i < rest.len() && #[trigger] rest[i] == v;
                    assert(s[i] == v);
                }
            }
        }
        assert(!key_set(rest).contains(s.last() as int)) by {
            if key_set(rest).contains(s.last() as int) {
                let i = choose|i: int| 0 <= i < rest.len() && #[trigger] rest[i] == s.last() as int;
                assert(s[i] < s[s.len() - 1]);
            }
        }
    }
}

} // verus!
