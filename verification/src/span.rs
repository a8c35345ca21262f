//! Sets of (year, month) pairs written as pairs of year and month
//! expressions, as dates, or as either of these or as whole years.

use vstd::prelude::*;
use crate::calendar::{lemma_month_key_injective, month_key};
use crate::date::{date_exists, Date};
use crate::keys::{ascending_keys, insert_key, key_set, lemma_keys_determined, same_keys};
use crate::month_spec::{MonthShape, MonthSpec};
use crate::ranges::{ascending_pairs, holds_pair, pair_at, pair_key, pairs_of_keys};
use crate::text::{chars_of, month_token, parse_month_chars, parse_year_chars, pieces, split_chars, year_token};
use crate::types::{CalendarError, Month, Year};
use crate::utils::{leap_year, lemma_month_length_bounds, month_length};
use crate::year_spec::{YearShape, YearSpec};

verus! {

/// The key of month `months[j]` in year `years[i]`.
pub open spec fn combined_key(years: Seq<u32>, months: Seq<u32>, i: int, j: int) -> int {
    years[i] * 12 + months[j] - 1
}

/// Whether `k` is the key of one of the given months in one of the given
/// years.
pub open spec fn is_combined(years: Seq<u32>, months: Seq<u32>, k: int) -> bool {
    exists|i: int, j: int|
        0 <= i < years.len() && 0 <= j < months.len() && #[trigger] combined_key(
            years,
            months,
            i,
            j,
        ) == k
}

/// Whether `k` is the key of a given month in a given year that comes
/// before month `j` of year `i`, going through the years and, for each
/// year, through the months.
pub open spec fn combined_before(years: Seq<u32>, months: Seq<u32>, i: int, j: int, k: int) -> bool {
    exists|a: int, b: int|
        0 <= a < years.len() && 0 <= b < months.len() && (a < i || (a == i && b < j))
            && #[trigger] combined_key(years, months, a, b) == k
}

/// How the keys that come before a place grow along the walk.
proof fn lemma_combined_before(years: Seq<u32>, months: Seq<u32>, i: int, j: int, k: int)
    requires
        0 <= i <= years.len(),
        0 <= j <= months.len(),
    ensures
        !combined_before(years, months, 0, 0, k),
        i < years.len() && j < months.len() ==> (combined_before(years, months, i, j + 1, k)
            <==> combined_before(years, months, i, j, k) || k == combined_key(
            years,
            months,
            i,
            j,
        )),
        j == months.len() ==> (combined_before(years, months, i, j, k) <==> combined_before(
            years,
            months,
            i + 1,
            0,
            k,
        )),
        i == years.len() ==> (combined_before(years, months, i, 0, k) <==> is_combined(
            years,
            months,
            k,
        )),
{
    if i < years.len() && j < months.len() {
        if combined_before(years, months, i, j + 1, k) {
            let (a, b) = choose|a: int, b: int|
                0 <= a < years.len() && 0 <= b < months.len() && (a < i || (a == i && b < j + 1))
                    && #[trigger] combined_key(years, months, a, b) == k;
            if !(a == i && b == j) {
                assert(combined_key(years, months, a, b) == k);
            }
        }
        if combined_before(years, months, i, j, k) {
            let (a, b) = choose|a: int, b: int|
                0 <= a < years.len() && 0 <= b < months.len() && (a < i || (a == i && b < j))
                    && #[trigger] combined_key(years, months, a, b) == k;
            assert(combined_key(years, months, a, b) == k);
        }
        if k == combined_key(years, months, i, j) {
            assert(combined_key(years, months, i, j) == k);
        }
    }
    if j == months.len() {
        if combined_before(years, months, i, j, k) {
            let (a, b) = choose|a: int, b: int|
                0 <= a < years.len() && 0 <= b < months.len() && (a < i || (a == i && b < j))
                    && #[trigger] combined_key(years, months, a, b) == k;
            assert(combined_key(years, months, a, b) == k);
        }
        if combined_before(years, months, i + 1, 0, k) {
            let (a, b) = choose|a: int, b: int|
                0 <= a < years.len() && 0 <= b < months.len() && (a < i + 1 || (a == i + 1 && b
                    < 0)) && #[trigger] combined_key(years, months, a, b) == k;
            assert(combined_key(years, months, a, b) == k);
        }
    }
    if i == years.len() {
        if combined_before(years, months, i, 0, k) {
            let (a, b) = choose|a: int, b: int|
                0 <= a < years.len() && 0 <= b < months.len() && (a < i || (a == i && b < 0))
                    && #[trigger] combined_key(years, months, a, b) == k;
            assert(combined_key(years, months, a, b) == k);
        }
        if is_combined(years, months, k) {
            let (a, b) = choose|a: int, b: int|
                0 <= a < years.len() && 0 <= b < months.len() && #[trigger] combined_key(
                    years,
                    months,
                    a,
                    b,
                ) == k;
            assert(combined_key(years, months, a, b) == k);
        }
    }
}

/// The keys that come before month `j` of year `i` in the walk.
pub open spec fn combined_set(years: Seq<u32>, months: Seq<u32>, i: int, j: int) -> Set<int> {
    Set::new(|k: int| combined_before(years, months, i, j, k))
}

/// The keys of the given months in the given years.
pub open spec fn all_combined(years: Seq<u32>, months: Seq<u32>) -> Set<int> {
    Set::new(|k: int| is_combined(years, months, k))
}

/// Adds to `keys` the key of every given month in every given year.
fn add_months(keys: &mut Vec<u32>, years: &Vec<u32>, months: &Vec<u32>)
    requires
        ascending_keys(old(keys)@),
        forall|i: int| 0 <= i < years@.len() ==> #[trigger] years@[i] <= u16::MAX,
        forall|j: int| 0 <= j < months@.len() ==> 1 <= #[trigger] months@[j] <= 12,
    ensures
        ascending_keys(final(keys)@),
        key_set(final(keys)@) == key_set(old(keys)@).union(all_combined(years@, months@)),
{
    let ghost start = key_set(keys@);
    let mut i: usize = 0;
    proof {
        assert(key_set(keys@) =~= start.union(combined_set(years@, months@, 0, 0))) by {
            assert forall|k: int| !combined_set(years@, months@, 0, 0).contains(k) by {
                lemma_combined_before(years@, months@, 0, 0, k);
            }
        }
    }
    while i < years.len()
        invariant
            i <= years@.len(),
            ascending_keys(keys@),
            forall|i: int| 0 <= i < years@.len() ==> #[trigger] years@[i] <= u16::MAX,
            forall|j: int| 0 <= j < months@.len() ==> 1 <= #[trigger] months@[j] <= 12,
            key_set(keys@) == start.union(combined_set(years@, months@, i as int, 0)),
        decreases years@.len() - i,
    {
        let mut j: usize = 0;
        while j < months.len()
            invariant
                i < years@.len(),
                j <= months@.len(),
                ascending_keys(keys@),
                forall|i: int| 0 <= i < years@.len() ==> #[trigger] years@[i] <= u16::MAX,
                forall|j: int| 0 <= j < months@.len() ==> 1 <= #[trigger] months@[j] <= 12,
                key_set(keys@) == start.union(combined_set(years@, months@, i as int, j as int)),
            decreases months@.len() - j,
        {
            let key: u32 = years[i] * 12 + months[j] - 1;
            assert(key == combined_key(years@, months@, i as int, j as int));
            insert_key(keys, key);
            assert(key_set(keys@) =~= start.union(
                combined_set(years@, months@, i as int, j + 1),
            )) by {
                assert forall|k: int|
                    combined_set(years@, months@, i as int, j + 1).contains(k) <==> combined_set(
                        years@,
                        months@,
                        i as int,
                        j as int,
                    ).contains(k) || k == key by {
                    lemma_combined_before(years@, months@, i as int, j as int, k);
                }
            }
            j += 1;
        }
        assert(combined_set(years@, months@, i as int, j as int) =~= combined_set(
            years@,
            months@,
            i + 1,
            0,
        )) by {
            assert forall|k: int|
                combined_set(years@, months@, i as int, j as int).contains(k) <==> combined_set(
                    years@,
                    months@,
                    i + 1,
                    0,
                ).contains(k) by {
                lemma_combined_before(years@, months@, i as int, j as int, k);
            }
        }
        i += 1;
    }
    assert(combined_set(years@, months@, i as int, 0) =~= all_combined(years@, months@)) by {
        assert forall|k: int|
            combined_set(years@, months@, i as int, 0).contains(k) <==> all_combined(
                years@,
                months@,
            ).contains(k) by {
            lemma_combined_before(years@, months@, i as int, 0, k);
        }
    }
}

/// Whether a year expression and a month expression together denote
/// the month of the year.
pub open spec fn pair_denotes(years: YearShape, months: MonthShape, y: int, m: Month) -> bool {
    years.years().contains(y) && months.months().contains(m.index())
}

/// Whether one of the first `n` pairs of expressions denotes the month
/// of the year.
pub open spec fn denoted_by(items: Seq<(YearSpec, MonthSpec)>, n: int, y: int, m: Month) -> bool {
    exists|p: int| 0 <= p < n && pair_denotes((#[trigger] items[p]).0@, items[p].1@, y, m)
}

/// The keys combined of the years and months of two expressions are
/// the keys of the months that the two denote.
proof fn lemma_combined_denotes(
    ys: YearShape,
    ms: MonthShape,
    years: Seq<u32>,
    months: Seq<u32>,
    y: int,
    m: Month,
)
    requires
        key_set(years) == ys.years(),
        key_set(months) == ms.months(),
        forall|j: int| 0 <= j < months.len() ==> 1 <= #[trigger] months[j] <= 12,
    ensures
        is_combined(years, months, month_key(y, m)) <==> pair_denotes(ys, ms, y, m),
{
    if is_combined(years, months, month_key(y, m)) {
        let (i, j) = choose|i: int, j: int|
            0 <= i < years.len() && 0 <= j < months.len() && #[trigger] combined_key(
                years,
                months,
                i,
                j,
            ) == month_key(y, m);
        assert(1 <= months[j] <= 12);
        assert(years[i] == y && months[j] == m.index());
        assert(key_set(years).contains(y));
        assert(key_set(months).contains(m.index()));
    }
    if pair_denotes(ys, ms, y, m) {
        assert(key_set(years).contains(y));
        assert(key_set(months).contains(m.index()));
        let i = choose|i: int| 0 <= i < years.len() && #[trigger] years[i] == y;
        let j = choose|j: int| 0 <= j < months.len() && #[trigger] months[j] == m.index();
        assert(combined_key(years, months, i, j) == month_key(y, m));
    }
}

/// A set of (year, month) pairs: the months of each month expression in
/// the years of the year expression that stands with it.
#[derive(Debug, Clone)]
pub struct YearMonthSpec(pub Vec<(YearSpec, MonthSpec)>);

/// What a text writes as a year and a month: a year and a month around a
/// single hyphen, such as `2023-January`. `None` for any other text.
pub open spec fn year_month_text(s: Seq<char>) -> Option<(Year, Month)> {
    let parts = pieces(s, '-');
    if parts.len() == 2 {
        match (year_token(parts[0]), month_token(parts[1])) {
            (Some(y), Some(m)) => Some((y, m)),
            _ => None,
        }
    } else {
        None
    }
}

/// Returns the year and the month that the characters of a text write.
fn parse_year_month(s: &Vec<char>) -> (r: Option<(Year, Month)>)
    ensures
        r == year_month_text(s@),
{
    let parts = split_chars(s, '-');
    if parts.len() != 2 {
        return None;
    }
    match (parse_year_chars(&parts[0]), parse_month_chars(&parts[1])) {
        (Some(y), Some(m)) => Some((y, m)),
        _ => None,
    }
}

impl YearMonthSpec {
    /// Whether the expression denotes the month of the year.
    pub open spec fn denotes(self, y: int, m: Month) -> bool {
        denoted_by(self.0@, self.0@.len() as int, y, m)
    }

    /// Returns whether the text writes a year and a month around a single
    /// hyphen.
    pub fn is_valid(input: &str) -> (r: bool)
        ensures
            r == year_month_text(input@) is Some,
    {
        let s = chars_of(input);
        parse_year_month(&s).is_some()
    }

    /// Returns the expression of the one month that the text writes, as
    /// in `2023-January`. Fails with `InvalidSpecFormat` for any other
    /// text.
    pub fn parse(input: &str) -> (r: Result<Self, CalendarError>)
        ensures
            year_month_text(input@) is Some <==> r is Ok,
            r matches Ok(spec) ==> spec.0@.len() == 1 && spec.0@[0].0@ == YearShape::Single(
                year_month_text(input@).unwrap().0 as int,
            ) && spec.0@[0].1@ == MonthShape::Single(year_month_text(input@).unwrap().1.index()),
            r matches Err(e) ==> e == CalendarError::InvalidSpecFormat,
    {
        let s = chars_of(input);
        match parse_year_month(&s) {
            Some((year, month)) => {
                let mut set: Vec<(YearSpec, MonthSpec)> = Vec::new();
                set.push((YearSpec::Single(year), MonthSpec::Single(month)));
                Ok(YearMonthSpec(set))
            },
            None => Err(CalendarError::InvalidSpecFormat),
        }
    }

    /// Returns the positions on the time line of the months that the
    /// expression denotes, in ascending order: the form in which
    /// expressions are compared.
    pub fn keys(&self) -> (r: Vec<u32>)
        ensures
            ascending_keys(r@),
            forall|i: int| 0 <= i < r@.len() ==> #[trigger] r@[i] < 65536 * 12,
            forall|y: int, m: Month|
                #![trigger month_key(y, m)]
                key_set(r@).contains(month_key(y, m)) <==> self.denotes(y, m),
    {
        let mut keys: Vec<u32> = Vec::new();
        let mut p: usize = 0;
        while p < self.0.len()
            invariant
                p <= self.0@.len(),
                ascending_keys(keys@),
                forall|k: int| key_set(keys@).contains(k) ==> 0 <= k < 65536 * 12,
                forall|y: int, m: Month|
                    #![trigger month_key(y, m)]
                    key_set(keys@).contains(month_key(y, m)) <==> denoted_by(
                        self.0@,
                        p as int,
                        y,
                        m,
                    ),
            decreases self.0@.len() - p,
        {
            let years = self.0[p].0.keys();
            let months = self.0[p].1.keys();
            let ghost before = key_set(keys@);
            add_months(&mut keys, &years, &months);
            proof {
                assert forall|k: int| key_set(keys@).contains(k) implies 0 <= k < 65536 * 12 by {
                    if !before.contains(k) {
                        assert(all_combined(years@, months@).contains(k));
                        let (i, j) = choose|i: int, j: int|
                            0 <= i < years@.len() && 0 <= j < months@.len()
                                && #[trigger] combined_key(years@, months@, i, j) == k;
                        assert(years@[i] <= u16::MAX);
                        assert(1 <= months@[j] <= 12);
                    }
                }
                assert forall|y: int, m: Month|
                    #![trigger month_key(y, m)]
                    key_set(keys@).contains(month_key(y, m)) <==> denoted_by(
                        self.0@,
                        p + 1,
                        y,
                        m,
                    ) by {
                    lemma_combined_denotes(self.0@[p as int].0@, self.0@[p as int].1@, years@, months@, y, m);
                    if denoted_by(self.0@, p + 1, y, m) {
                        let q = choose|q: int|
                            0 <= q < p + 1 && pair_denotes(
                                (#[trigger] self.0@[q]).0@,
                                self.0@[q].1@,
                                y,
                                m,
                            );
                        if q < p {
                            assert(denoted_by(self.0@, p as int, y, m));
                        }
                    }
                    if all_combined(years@, months@).contains(month_key(y, m)) {
                        assert(key_set(keys@).contains(month_key(y, m)));
                    }
                    if key_set(keys@).contains(month_key(y, m)) {
                        if before.contains(month_key(y, m)) {
                            assert(denoted_by(self.0@, p as int, y, m));
                            let q = choose|q: int|
                                0 <= q < p && pair_denotes(
                                    (#[trigger] self.0@[q]).0@,
                                    self.0@[q].1@,
                                    y,
                                    m,
                                );
                            assert(pair_denotes(self.0@[q].0@, self.0@[q].1@, y, m));
                        } else {
                            assert(pair_denotes(self.0@[p as int].0@, self.0@[p as int].1@, y, m));
                        }
                    }
                }
            }
            p += 1;
        }
        assert forall|i: int| 0 <= i < keys@.len() implies #[trigger] keys@[i] < 65536 * 12 by {
            assert(key_set(keys@).contains(keys@[i] as int));
        }
        keys
    }

    /// Returns the months that the expression denotes, in ascending
    /// order.
    pub fn to_year_month(&self) -> (r: Vec<(Year, Month)>)
        ensures
            ascending_pairs(r@),
            forall|y: int, m: Month| holds_pair(r@, y, m) <==> self.denotes(y, m),
    {
        let keys = self.keys();
        let r = pairs_of_keys(&keys);
        proof {
            lemma_pairs_hold(keys@, r@);
            assert forall|y: int, m: Month| holds_pair(r@, y, m) <==> self.denotes(y, m) by {
                assert(key_set(keys@).contains(month_key(y, m)) <==> self.denotes(y, m));
            }
        }
        r
    }
}

/// The pairs made of keys hold exactly the months whose keys are among the
/// keys.
pub proof fn lemma_pairs_hold(keys: Seq<u32>, pairs: Seq<(Year, Month)>)
    requires
        pairs.len() == keys.len(),
        forall|i: int| 0 <= i < pairs.len() ==> pair_key(#[trigger] pairs[i]) == keys[i],
    ensures
        forall|y: int, m: Month|
            #![trigger month_key(y, m)]
            holds_pair(pairs, y, m) <==> key_set(keys).contains(month_key(y, m)),
{
    assert forall|y: int, m: Month|
        #![trigger month_key(y, m)]
        holds_pair(pairs, y, m) <==> key_set(keys).contains(month_key(y, m)) by {
        if holds_pair(pairs, y, m) {
            let i = choose|i: int|
                0 <= i < pairs.len() && (#[trigger] pairs[i]).0 == y && pairs[i].1 == m;
            assert(keys[i] == month_key(y, m));
        }
        if key_set(keys).contains(month_key(y, m)) {
            let i = choose|i: int| 0 <= i < keys.len() && #[trigger] keys[i] == month_key(y, m);
            assert(pair_key(pairs[i]) == month_key(y, m));
            lemma_month_key_injective(pairs[i].0 as int, pairs[i].1, y, m);
        }
    }
}

impl PartialEq for YearMonthSpec {
    /// Two expressions are equal when they denote the same months of
    /// the same years, however they are written.
    fn eq(&self, other: &Self) -> (r: bool) {
        let a = self.keys();
        let b = other.keys();
        proof {
            if forall|y: int, m: Month| self.denotes(y, m) <==> other.denotes(y, m) {
                assert(key_set(a@) =~= key_set(b@)) by {
                    assert forall|k: int| key_set(a@).contains(k) <==> key_set(b@).contains(k) by {
                        lemma_key_is_month(k);
                        let (y, m) = pair_at(k);
                        if key_set(a@).contains(k) {
                            let i = choose|i: int| 0 <= i < a@.len() && #[trigger] a@[i] == k;
                            assert(k == month_key(y as int, m));
                            assert(self.denotes(y as int, m));
                            assert(key_set(b@).contains(month_key(y as int, m)));
                        }
                        if key_set(b@).contains(k) {
                            let i = choose|i: int| 0 <= i < b@.len() && #[trigger] b@[i] == k;
                            assert(k == month_key(y as int, m));
                            assert(other.denotes(y as int, m));
                            assert(key_set(a@).contains(month_key(y as int, m)));
                        }
                    }
                }
                lemma_keys_determined(a@, b@);
            }
            if a@ == b@ {
                assert forall|y: int, m: Month| self.denotes(y, m) <==> other.denotes(y, m) by {
                    assert(key_set(a@).contains(month_key(y, m)) <==> self.denotes(y, m));
                    assert(key_set(b@).contains(month_key(y, m)) <==> other.denotes(y, m));
                }
            }
        }
        same_keys(&a, &b)
    }
}

/// A position on the time line from year 0 on is the key of the month at
/// it.
pub proof fn lemma_key_is_month(k: int)
    ensures
        0 <= k < 65536 * 12 ==> month_key(pair_at(k).0 as int, pair_at(k).1) == k,
{
}

impl vstd::std_specs::cmp::PartialEqSpecImpl for YearMonthSpec {
    open spec fn obeys_eq_spec() -> bool {
        true
    }

    open spec fn eq_spec(&self, other: &Self) -> bool {
        forall|y: int, m: Month| self.denotes(y, m) <==> other.denotes(y, m)
    }
}

impl Eq for YearMonthSpec {

}

/// A set of dates written as one date, as the dates from one date to
/// another, or as a list of dates.
#[derive(Debug, Clone)]
pub enum DateSpec {
    /// One date.
    Single(Date),
    /// The dates from the first date to the second, both included.
    Range(Date, Date),
    /// The dates of the list.
    List(Vec<Date>),
}

impl DateSpec {
    /// Whether the expression touches the month of the year: the month
    /// of a single date; each month from that of the first date of a range
    /// to that of its last; the month of each date of a list.
    pub open spec fn denotes(self, y: int, m: Month) -> bool {
        match self {
            DateSpec::Single(d) => d@.0 == y && d@.1 == m,
            DateSpec::Range(a, b) => month_key(a@.0, a@.1) <= month_key(y, m) <= month_key(
                b@.0,
                b@.1,
            ),
            DateSpec::List(dates) => exists|i: int|
                0 <= i < dates@.len() && (#[trigger] dates@[i])@.0 == y && dates@[i]@.1 == m,
        }
    }

    /// Whether no date of the expression lies in a negative year.
    pub open spec fn from_year_zero(self) -> bool {
        match self {
            DateSpec::Single(d) => d@.0 >= 0,
            DateSpec::Range(a, b) => a@.0 >= 0 && b@.0 >= 0,
            DateSpec::List(dates) => forall|i: int|
                0 <= i < dates@.len() ==> (#[trigger] dates@[i])@.0 >= 0,
        }
    }

    /// Returns the months that the expression touches, in ascending
    /// order. A range is walked month by month from the month of its first
    /// date to the month of its last.
    pub fn to_year_month(&self) -> (r: Vec<(Year, Month)>)
        requires
            self.from_year_zero(),
        ensures
            ascending_pairs(r@),
            forall|y: int, m: Month| holds_pair(r@, y, m) <==> self.denotes(y, m),
    {
        let mut keys: Vec<u32> = Vec::new();
        match self {
            DateSpec::Single(date) => {
                keys.push(date_month_key(date));
                assert(keys@[0] == month_key(date@.0, date@.1));
                assert forall|k: int| key_set(keys@).contains(k) implies k < 10000 * 12 by {
                    let i = choose|i: int| 0 <= i < keys@.len() && #[trigger] keys@[i] == k;
                }
            },
            DateSpec::Range(start, end) => {
                let first = date_month_key(start);
                let last = date_month_key(end);
                if first <= last {
                    let mut k: u32 = first;
                    while k <= last
                        invariant
                            first <= k <= last + 1,
                            last < 10000 * 12,
                            keys@.len() == k - first,
                            forall|i: int| 0 <= i < keys@.len() ==> keys@[i] == first + i,
                        decreases last + 1 - k,
                    {
                        keys.push(k);
                        k += 1;
                    }
                }
                assert forall|v: int| first <= v <= last implies key_set(keys@).contains(v) by {
                    assert(keys@[v - first] == v);
                }
                assert forall|k: int| key_set(keys@).contains(k) implies k < 10000 * 12 by {
                    let i = choose|i: int| 0 <= i < keys@.len() && #[trigger] keys@[i] == k;
                }
            },
            DateSpec::List(dates) => {
                let mut i: usize = 0;
                while i < dates.len()
                    invariant
                        i <= dates@.len(),
                        forall|j: int| 0 <= j < dates@.len() ==> (#[trigger] dates@[j])@.0 >= 0,
                        ascending_keys(keys@),
                        forall|k: int| key_set(keys@).contains(k) ==> k < 10000 * 12,
                        forall|k: int|
                            key_set(keys@).contains(k) <==> exists|j: int|
                                0 <= j < i && month_key(
                                    (#[trigger] dates@[j])@.0,
                                    dates@[j]@.1,
                                ) == k,
                    decreases dates@.len() - i,
                {
                    let ghost before = key_set(keys@);
                    let key = date_month_key(&dates[i]);
                    insert_key(&mut keys, key);
                    assert forall|k: int|
                        key_set(keys@).contains(k) <==> exists|j: int|
                            0 <= j < i + 1 && month_key((#[trigger] dates@[j])@.0, dates@[j]@.1)
                                == k by {
                        if key_set(keys@).contains(k) && !before.contains(k) {
                            assert(month_key(dates@[i as int]@.0, dates@[i as int]@.1) == k);
                        }
                        if exists|j: int|
                            0 <= j < i + 1 && month_key((#[trigger] dates@[j])@.0, dates@[j]@.1)
                                == k {
                            let j = choose|j: int|
                                0 <= j < i + 1 && month_key(
                                    (#[trigger] dates@[j])@.0,
                                    dates@[j]@.1,
                                ) == k;
                            if j < i {
                                assert(before.contains(k));
                            }
                        }
                    }
                    i += 1;
                }
            },
        }
        assert forall|i: int| 0 <= i < keys@.len() implies #[trigger] keys@[i] < 65536 * 12 by {
            assert(key_set(keys@).contains(keys@[i] as int));
        }
        let r = pairs_of_keys(&keys);
        proof {
            lemma_pairs_hold(keys@, r@);
            assert forall|y: int, m: Month| holds_pair(r@, y, m) <==> self.denotes(y, m) by {
                assert(holds_pair(r@, y, m) <==> key_set(keys@).contains(month_key(y, m)));
                match self {
                    DateSpec::Single(date) => {
                        if key_set(keys@).contains(month_key(y, m)) {
                            let i = choose|i: int|
                                0 <= i < keys@.len() && #[trigger] keys@[i] == month_key(y, m);
                            lemma_month_key_injective(date@.0, date@.1, y, m);
                        }
                        if self.denotes(y, m) {
                            assert(keys@[0] == month_key(y, m));
                        }
                    },
                    DateSpec::Range(start, end) => {
                        if key_set(keys@).contains(month_key(y, m)) {
                            let i = choose|i: int|
                                0 <= i < keys@.len() && #[trigger] keys@[i] == month_key(y, m);
                        }
                    },
                    DateSpec::List(dates) => {
                        if key_set(keys@).contains(month_key(y, m)) {
                            let j = choose|j: int|
                                0 <= j < dates@.len() && month_key(
                                    (#[trigger] dates@[j])@.0,
                                    dates@[j]@.1,
                                ) == month_key(y, m);
                            lemma_month_key_injective(dates@[j]@.0, dates@[j]@.1, y, m);
                        }
                        if self.denotes(y, m) {
                            let j = choose|j: int|
                                0 <= j < dates@.len() && (#[trigger] dates@[j])@.0 == y
                                    && dates@[j]@.1 == m;
                            assert(month_key(dates@[j]@.0, dates@[j]@.1) == month_key(y, m));
                        }
                    },
                }
            }
        }
        r
    }
}

/// The year of the day at a position of the time line.
pub open spec fn year_at(position: int) -> int {
    position / 32 / 12
}

/// The ordinal of the month of the day at a position of the time line.
pub open spec fn month_at(position: int) -> int {
    position / 32 % 12 + 1
}

/// The day of the month of the day at a position of the time line.
pub open spec fn day_at(position: int) -> int {
    position % 32
}

/// Whether a position of the time line is the position of a day that
/// exists.
pub open spec fn is_day(position: int) -> bool {
    date_exists(year_at(position), Month::of_index(month_at(position)), day_at(position))
}

/// What is added to a position so that the positions of all dates are
/// natural numbers.
pub open spec fn day_key_offset() -> int {
    3840000
}

impl DateSpec {
    /// The dates that the expression denotes, each as its position on the
    /// time line: the single date; every day that exists from the first
    /// date of a range to its last; the dates of a list.
    pub open spec fn dates(self) -> Set<int> {
        match self {
            DateSpec::Single(d) => set![d.position()],
            DateSpec::Range(a, b) => Set::new(
                |p: int| a.position() <= p <= b.position() && is_day(p),
            ),
            DateSpec::List(dates) => Set::new(
                |p: int| exists|i: int| 0 <= i < dates@.len() && (#[trigger] dates@[i]).position() == p,
            ),
        }
    }

    /// Returns the positions of the dates that the expression denotes,
    /// each moved by a fixed offset, in ascending order: the form in which
    /// expressions are compared.
    pub fn keys(&self) -> (r: Vec<u32>)
        ensures
            ascending_keys(r@),
            forall|p: int| self.dates().contains(p) <==> key_set(r@).contains(p + day_key_offset()),
            forall|k: int| key_set(r@).contains(k) ==> self.dates().contains(k - day_key_offset()),
    {
        let mut keys: Vec<u32> = Vec::new();
        match self {
            DateSpec::Single(date) => {
                keys.push(day_key(date));
                assert(keys@[0] == date.position() + day_key_offset());
                assert forall|k: int| key_set(keys@).contains(k) implies self.dates().contains(
                    k - day_key_offset(),
                ) by {
                    let i = choose|i: int| 0 <= i < keys@.len() && #[trigger] keys@[i] == k;
                }
            },
            DateSpec::Range(start, end) => {
                let first = day_key(start);
                let last = day_key(end);
                if first <= last {
                    let mut k: u32 = first;
                    while k <= last
                        invariant
                            first <= k <= last + 1,
                            last < 7680000,
                            32 <= first,
                            ascending_keys(keys@),
                            forall|i: int| 0 <= i < keys@.len() ==> #[trigger] keys@[i] < k,
                            forall|v: int|
                                key_set(keys@).contains(v) <==> first <= v < k && is_day(
                                    v - day_key_offset(),
                                ),
                        decreases last + 1 - k,
                    {
                        let ghost before = keys@;
                        let day = k % 32;
                        let month_number = (k / 32) % 12 + 1;
                        let shifted_year = k / 32 / 12;
                        let exists_day = 1 <= shifted_year && day >= 1 && day <= days_of_shifted(
                            shifted_year,
                            month_number,
                        );
                        proof {
                            let p = k as int - day_key_offset();
                            assert(year_at(p) == shifted_year - 10000);
                            assert(month_at(p) == month_number);
                            assert(day_at(p) == day);
                            assert(exists_day == is_day(p));
                        }
                        if exists_day {
                            keys.push(k);
                            proof {
                                assert forall|a: int, b: int|
                                    0 <= a < b < keys@.len() implies keys@[a] < keys@[b] by {
                                    if b < before.len() {
                                        assert(before[a] < before[b]);
                                    } else {
                                        assert(keys@[a] == before[a]);
                                    }
                                }
                                assert forall|v: int|
                                    key_set(keys@).contains(v) <==> first <= v < k + 1 && is_day(
                                        v - day_key_offset(),
                                    ) by {
                                    if key_set(keys@).contains(v) {
                                        let i = choose|i: int|
                                            0 <= i < keys@.len() && #[trigger] keys@[i] == v;
                                        if i < before.len() {
                                            assert(before[i] == v);
                                            assert(key_set(before).contains(v));
                                        }
                                    }
                                    if first <= v < k && is_day(v - day_key_offset()) {
                                        assert(key_set(before).contains(v));
                                        let i = choose|i: int|
                                            0 <= i < before.len() && #[trigger] before[i] == v;
                                        assert(keys@[i] == v);
                                    }
                                    if v == k {
                                        assert(keys@[before.len() as int] == v);
                                    }
                                }
                            }
                        }
                        k += 1;
                    }
                } else {
                    assert forall|v: int| !key_set(keys@).contains(v) by {
                        if key_set(keys@).contains(v) {
                            let i = choose|i: int| 0 <= i < keys@.len() && #[trigger] keys@[i] == v;
                        }
                    }
                }
            },
            DateSpec::List(dates) => {
                let mut i: usize = 0;
                while i < dates.len()
                    invariant
                        i <= dates@.len(),
                        ascending_keys(keys@),
                        forall|k: int|
                            key_set(keys@).contains(k) <==> exists|j: int|
                                0 <= j < i && (#[trigger] dates@[j]).position() + day_key_offset()
                                    == k,
                    decreases dates@.len() - i,
                {
                    let ghost before = key_set(keys@);
                    let key = day_key(&dates[i]);
                    insert_key(&mut keys, key);
                    assert forall|k: int|
                        key_set(keys@).contains(k) <==> exists|j: int|
                            0 <= j < i + 1 && (#[trigger] dates@[j]).position() + day_key_offset()
                                == k by {
                        if key_set(keys@).contains(k) && !before.contains(k) {
                            assert(dates@[i as int].position() + day_key_offset() == k);
                        }
                        if exists|j: int|
                            0 <= j < i + 1 && (#[trigger] dates@[j]).position() + day_key_offset()
                                == k {
                            let j = choose|j: int|
                                0 <= j < i + 1 && (#[trigger] dates@[j]).position()
                                    + day_key_offset() == k;
                            if j < i {
                                assert(before.contains(k));
                            }
                        }
                    }
                    i += 1;
                }
                assert forall|p: int|
                    self.dates().contains(p) <==> key_set(keys@).contains(
                        p + day_key_offset(),
                    ) by {
                    if self.dates().contains(p) {
                        let j = choose|j: int|
                            0 <= j < dates@.len() && (#[trigger] dates@[j]).position() == p;
                        assert(dates@[j].position() + day_key_offset() == p + day_key_offset());
                    }
                    if key_set(keys@).contains(p + day_key_offset()) {
                        let j = choose|j: int|
                            0 <= j < dates@.len() && (#[trigger] dates@[j]).position()
                                + day_key_offset() == p + day_key_offset();
                        assert(dates@[j].position() == p);
                    }
                }
                assert forall|k: int| key_set(keys@).contains(k) implies self.dates().contains(
                    k - day_key_offset(),
                ) by {
                    let j = choose|j: int|
                        0 <= j < dates@.len() && (#[trigger] dates@[j]).position()
                            + day_key_offset() == k;
                    assert(dates@[j].position() == k - day_key_offset());
                }
            },
        }
        keys
    }
}

/// Returns the position of a date on the time line, moved by the offset
/// that makes it a natural number.
fn day_key(date: &Date) -> (r: u32)
    ensures
        r == date.position() + day_key_offset(),
        32 <= r < 7680000,
        is_day(date.position()),
{
    let year = date.year();
    let day = date.day();
    proof {
        lemma_month_length_bounds(year as int, date@.1);
    }
    let shifted: u32 = (year + 10000) as u32;
    (shifted * 12 + date.month().to_index() as u32 - 1) * 32 + day as u32
}

/// Returns the number of days of the month with the given ordinal in the
/// year that lies 10000 years before the given one.
fn days_of_shifted(shifted_year: u32, month_number: u32) -> (r: u32)
    requires
        1 <= month_number <= 12,
        shifted_year <= 20000,
    ensures
        r == month_length(shifted_year - 10000, Month::of_index(month_number as int)),
{
    let leap = (shifted_year % 4 == 0 && shifted_year % 100 != 0) || shifted_year % 400 == 0;
    assert(leap == leap_year(shifted_year - 10000));
    if month_number == 2 {
        if leap {
            29
        } else {
            28
        }
    } else if month_number == 4 || month_number == 6 || month_number == 9 || month_number == 11 {
        30
    } else {
        31
    }
}

impl PartialEq for DateSpec {
    /// Two expressions are equal when they denote the same dates, however
    /// they are written.
    fn eq(&self, other: &Self) -> (r: bool) {
        let a = self.keys();
        let b = other.keys();
        proof {
            if self.dates() == other.dates() {
                assert(key_set(a@) =~= key_set(b@)) by {
                    assert forall|k: int| key_set(a@).contains(k) <==> key_set(b@).contains(k) by {
                        if key_set(a@).contains(k) {
                            assert(self.dates().contains(k - day_key_offset()));
                            assert(key_set(b@).contains(k - day_key_offset() + day_key_offset()));
                        }
                        if key_set(b@).contains(k) {
                            assert(other.dates().contains(k - day_key_offset()));
                            assert(key_set(a@).contains(k - day_key_offset() + day_key_offset()));
                        }
                    }
                }
                lemma_keys_determined(a@, b@);
            }
            if a@ == b@ {
                assert(self.dates() =~= other.dates());
            }
        }
        same_keys(&a, &b)
    }
}

impl vstd::std_specs::cmp::PartialEqSpecImpl for DateSpec {
    open spec fn obeys_eq_spec() -> bool {
        true
    }

    open spec fn eq_spec(&self, other: &Self) -> bool {
        self.dates() == other.dates()
    }
}

impl Eq for DateSpec {

}

/// Returns the position on the time line of the month of a date of a year
/// that is not negative.
fn date_month_key(date: &Date) -> (r: u32)
    requires
        date@.0 >= 0,
    ensures
        r == month_key(date@.0, date@.1),
        r < 10000 * 12,
{
    date.year() as u32 * 12 + date.month().to_index() as u32 - 1
}

/// An expression in one of three readings: whole years, months of years,
/// or dates.
#[derive(Debug, Clone)]
pub enum DateSpan {
    /// Every month of the years of a year expression.
    Year(YearSpec),
    /// The months of a year-month expression.
    YearMonth(YearMonthSpec),
    /// The months that a date expression touches.
    Date(DateSpec),
}

impl DateSpan {
    /// Whether the span denotes the month of the year.
    pub open spec fn denotes(self, y: int, m: Month) -> bool {
        match self {
            DateSpan::Year(spec) => spec@.years().contains(y),
            DateSpan::YearMonth(spec) => spec.denotes(y, m),
            DateSpan::Date(spec) => spec.denotes(y, m),
        }
    }

    /// Returns the months that the span denotes, in ascending order.
    pub fn to_year_month(&self) -> (r: Vec<(Year, Month)>)
        requires
            self matches DateSpan::Date(spec) ==> spec.from_year_zero(),
        ensures
            ascending_pairs(r@),
            forall|y: int, m: Month| holds_pair(r@, y, m) <==> self.denotes(y, m),
    {
        match self {
            DateSpan::Year(year_spec) => year_spec.to_year_month(),
            DateSpan::YearMonth(year_month_spec) => year_month_spec.to_year_month(),
            DateSpan::Date(date_spec) => date_spec.to_year_month(),
        }
    }
}

impl PartialEq for DateSpan {
    /// Two spans are equal when they have the same reading and their
    /// expressions are equal.
    fn eq(&self, other: &Self) -> (r: bool) {
        match (self, other) {
            (DateSpan::Year(a), DateSpan::Year(b)) => a == b,
            (DateSpan::YearMonth(a), DateSpan::YearMonth(b)) => a == b,
            (DateSpan::Date(a), DateSpan::Date(b)) => a == b,
            _ => false,
        }
    }
}

impl vstd::std_specs::cmp::PartialEqSpecImpl for DateSpan {
    open spec fn obeys_eq_spec() -> bool {
        true
    }

    open spec fn eq_spec(&self, other: &Self) -> bool {
        match (*self, *other) {
            (DateSpan::Year(a), DateSpan::Year(b)) => a@.years() == b@.years(),
            (DateSpan::YearMonth(a), DateSpan::YearMonth(b)) => forall|y: int, m: Month|
                a.denotes(y, m) <==> b.denotes(y, m),
            (DateSpan::Date(a), DateSpan::Date(b)) => a.dates() == b.dates(),
            _ => false,
        }
    }
}

impl Eq for DateSpan {

}

} // verus!
