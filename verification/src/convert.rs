//! Conversions between calendars of flags, calendars of day numbers and
//! lists of dates, and the ordering and grouping of fragments.

use vstd::prelude::*;
use itertools::Itertools;
use crate::calendar::{
    ascending, copy_items, find_month, first_of_month, fragments_of, has_month, insertion_point,
    key_of, lemma_month_key_injective, month_key, DaysCalendar, Fragment,
};
use crate::date::Date;
use crate::navigation::parts_of;
use crate::order::{
    entry_key, is_stable_sort, lemma_stable_sort_with_items, sort_by_month, sort_days,
    sorted_by_month, sorted_days, with_items,
};
use crate::types::{BiDay, Day, Month, Year};
use crate::utils::{canonical_days, days_in_month, generate_vec_days};

verus! {

/// The numbers of the days that a flag vector marks, in ascending order:
/// `i + 1` for each position `i` with the flag `One`.
pub open spec fn marked_days(flags: Seq<BiDay>) -> Seq<Day>
    decreases flags.len(),
{
    if flags.len() == 0 {
        Seq::empty()
    } else {
        let before = marked_days(flags.drop_last());
        if flags.last() == BiDay::One {
            before.push(flags.len() as Day)
        } else {
            before
        }
    }
}

/// A calendar of flags as a calendar of day numbers.
pub open spec fn as_day_numbers(frags: Seq<Fragment<BiDay>>) -> Seq<Fragment<Day>> {
    Seq::new(frags.len(), |i: int| (frags[i].0, frags[i].1, marked_days(frags[i].2)))
}

/// Whether every position of every fragment has a day number: no fragment
/// has more than 255 flags.
pub open spec fn numbered(frags: Seq<Fragment<BiDay>>) -> bool {
    forall|i: int| 0 <= i < frags.len() ==> (#[trigger] frags[i]).2.len() <= Day::MAX
}

/// Day numbers in strictly ascending order.
pub open spec fn ascending_days(days: Seq<Day>) -> bool {
    forall|a: int, b: int| 0 <= a < b < days.len() ==> days[a] < days[b]
}

/// Returns the numbers of the days that a flag vector marks.
fn marked_days_of(flags: &Vec<BiDay>) -> (r: Vec<Day>)
    requires
        flags@.len() <= Day::MAX,
    ensures
        r@ == marked_days(flags@),
{
    let mut days: Vec<Day> = Vec::new();
    let mut i: usize = 0;
    assert(flags@.subrange(0, 0) =~= Seq::<BiDay>::empty());
    while i < flags.len()
        invariant
            i <= flags@.len() <= Day::MAX,
            days@ == marked_days(flags@.subrange(0, i as int)),
        decreases flags@.len() - i,
    {
        proof {
            let now = flags@.subrange(0, i + 1);
            assert(now.drop_last() =~= flags@.subrange(0, i as int));
            assert(now.last() == flags@[i as int]);
        }
        if flags[i] == BiDay::One {
            days.push((i + 1) as Day);
        }
        i += 1;
    }
    assert(flags@.subrange(0, flags@.len() as int) =~= flags@);
    days
}

/// Returns the fragments of a calendar of flags with day numbers in place
/// of flags.
pub fn biday_to_vec_day(calendar: DaysCalendar<BiDay>) -> (r: Vec<(Year, Month, Vec<Day>)>)
    requires
        numbered(calendar@),
    ensures
        fragments_of(r@) == as_day_numbers(calendar@),
{
    let mut result: Vec<(Year, Month, Vec<Day>)> = Vec::new();
    let n = calendar.days_calendar.len();
    let mut i: usize = 0;
    while i < n
        invariant
            n == calendar.days_calendar@.len(),
            i <= n,
            numbered(calendar@),
            result@.len() == i,
            forall|k: int|
                0 <= k < i ==> #[trigger] fragments_of(result@)[k] == as_day_numbers(calendar@)[k],
        decreases n - i,
    {
        let frag = &calendar.days_calendar[i];
        assert(calendar@[i as int].2 == frag.2@);
        let days = marked_days_of(&frag.2);
        let ghost before = result@;
        result.push((frag.0, frag.1, days));
        assert forall|k: int| 0 <= k <= i implies #[trigger] fragments_of(result@)[k]
            == as_day_numbers(calendar@)[k] by {
            if k < i {
                assert(result@[k] == before[k]);
                assert(fragments_of(before)[k] == as_day_numbers(calendar@)[k]);
            }
        }
        i += 1;
    }
    assert(fragments_of(result@) =~= as_day_numbers(calendar@));
    result
}

/// Converts a calendar of flags into a calendar of day numbers: each
/// fragment holds, in ascending order, the numbers of the days that it
/// marks.
pub fn to_day<T>(calendar: DaysCalendar<BiDay>) -> (r: DaysCalendar<Day>)
    requires
        numbered(calendar@),
    ensures
        r@ == as_day_numbers(calendar@),
{
    DaysCalendar { days_calendar: biday_to_vec_day(calendar) }
}

/// The flags of a month of `n` days in which the given days are marked.
pub open spec fn flags_of_days(days: Seq<Day>, n: int) -> Seq<BiDay> {
    Seq::new(
        n as nat,
        |i: int|
            if days.contains((i + 1) as Day) {
                BiDay::One
            } else {
                BiDay::Zero
            },
    )
}

/// A calendar of day numbers as a calendar of flags, each fragment with
/// the canonical length of its month.
pub open spec fn as_flags(frags: Seq<Fragment<Day>>) -> Seq<Fragment<BiDay>> {
    Seq::new(
        frags.len(),
        |i: int|
            (
                frags[i].0,
                frags[i].1,
                flags_of_days(frags[i].2, canonical_days(frags[i].0 as int, frags[i].1)),
            ),
    )
}

/// Whether every day number of a fragment is a day of its month.
pub open spec fn days_fit(year: Year, month: Month, days: Seq<Day>) -> bool {
    forall|k: int|
        0 <= k < days.len() ==> 1 <= #[trigger] days[k] <= canonical_days(year as int, month)
}

/// Whether every day number of every fragment is a day of its month.
pub open spec fn all_days_fit(frags: Seq<Fragment<Day>>) -> bool {
    forall|i: int|
        0 <= i < frags.len() ==> days_fit((#[trigger] frags[i]).0, frags[i].1, frags[i].2)
}

/// Returns the flags of a month in which the given days are marked.
fn flags_of(year: Year, month: Month, days: &Vec<Day>) -> (r: Vec<BiDay>)
    requires
        days_fit(year, month, days@),
    ensures
        r@ == flags_of_days(days@, canonical_days(year as int, month)),
{
    let n_days: u8 = match days_in_month(year, month) {
        Some(n) => n,
        None => 0,
    };
    let mut bi_days: Vec<BiDay> = generate_vec_days(n_days as usize, BiDay::Zero);
    let ghost n = canonical_days(year as int, month);
    let mut k: usize = 0;
    assert(bi_days@ =~= flags_of_days(days@.subrange(0, 0), n));
    while k < days.len()
        invariant
            k <= days@.len(),
            n == canonical_days(year as int, month),
            0 <= n <= 31,
            days_fit(year, month, days@),
            bi_days@ == flags_of_days(days@.subrange(0, k as int), n),
        decreases days@.len() - k,
    {
        let day = days[k];
        let idx = day - 1;
        let ghost seen = days@.subrange(0, k as int);
        let ghost now = days@.subrange(0, k + 1);
        bi_days[idx as usize] = BiDay::One;
        assert(bi_days@ =~= flags_of_days(now, n)) by {
            assert(now =~= seen.push(day));
            assert forall|i: int| 0 <= i < n implies bi_days@[i] == flags_of_days(now, n)[i] by {
                let d = (i + 1) as Day;
                if now.contains(d) {
                    let j = choose|j: int| 0 <= j < now.len() && now[j] == d;
                    if j < seen.len() {
                        assert(seen[j] == d);
                        assert(seen.contains(d));
                    }
                }
                if seen.contains(d) {
                    let j = choose|j: int| 0 <= j < seen.len() && seen[j] == d;
                    assert(now[j] == d);
                }
                if i == idx {
                    assert(now[k as int] == d);
                }
            }
        }
        k += 1;
    }
    assert(days@.subrange(0, days@.len() as int) =~= days@);
    bi_days
}

/// Converts a calendar of day numbers into a calendar of flags: each
/// fragment gets one flag for each day of its month, `One` for the days
/// that it lists. A fragment of a year outside 1..=9999 gets no flags.
pub fn from_day(calendar: DaysCalendar<Day>) -> (r: DaysCalendar<BiDay>)
    requires
        all_days_fit(calendar@),
    ensures
        r@ == as_flags(calendar@),
{
    let mut result: Vec<(Year, Month, Vec<BiDay>)> = Vec::new();
    let n = calendar.days_calendar.len();
    let mut i: usize = 0;
    while i < n
        invariant
            n == calendar.days_calendar@.len(),
            i <= n,
            all_days_fit(calendar@),
            result@.len() == i,
            forall|k: int| 0 <= k < i ==> #[trigger] fragments_of(result@)[k] == as_flags(calendar@)[k],
        decreases n - i,
    {
        let frag = &calendar.days_calendar[i];
        assert(calendar@[i as int] == (frag.0, frag.1, frag.2@));
        let bi_days = flags_of(frag.0, frag.1, &frag.2);
        let ghost before = result@;
        result.push((frag.0, frag.1, bi_days));
        assert forall|k: int| 0 <= k <= i implies #[trigger] fragments_of(result@)[k] == as_flags(
            calendar@,
        )[k] by {
            if k < i {
                assert(result@[k] == before[k]);
                assert(fragments_of(before)[k] == as_flags(calendar@)[k]);
            }
        }
        i += 1;
    }
    assert(fragments_of(result@) =~= as_flags(calendar@));
    DaysCalendar { days_calendar: result }
}

/// The date (year, month, day) that day `k` of fragment `i` stands for.
pub open spec fn marked_at(frags: Seq<Fragment<Day>>, i: int, k: int) -> (int, Month, int) {
    (frags[i].0 as int, frags[i].1, frags[i].2[k] as int)
}

/// Whether some fragment lists the day of the date.
pub open spec fn marks(frags: Seq<Fragment<Day>>, parts: (int, Month, int)) -> bool {
    exists|i: int, k: int|
        0 <= i < frags.len() && 0 <= k < frags[i].2.len() && #[trigger] marked_at(frags, i, k)
            == parts
}

/// The calendar of day numbers of a list of dates: one fragment for each
/// month in which a date lies, in ascending order of month; each fragment
/// with the days of the dates of its month, in ascending order and each
/// once.
pub open spec fn is_calendar_of(frags: Seq<Fragment<Day>>, dates: Seq<(int, Month, int)>) -> bool {
    &&& ascending(frags)
    &&& forall|i: int|
        0 <= i < frags.len() ==> (#[trigger] frags[i]).2.len() > 0 && ascending_days(frags[i].2)
    &&& forall|parts: (int, Month, int)| marks(frags, parts) <==> dates.contains(parts)
}

/// Adds a day to ascending day numbers, at its place in the order, unless
/// it is one of them already.
fn insert_day(days: &mut Vec<Day>, d: Day)
    requires
        ascending_days(old(days)@),
    ensures
        ascending_days(final(days)@),
        final(days)@.len() > 0,
        forall|x: Day| final(days)@.contains(x) <==> old(days)@.contains(x) || x == d,
{
    let mut pos: usize = 0;
    while pos < days.len() && days[pos] < d
        invariant
            pos <= days@.len(),
            forall|k: int| 0 <= k < pos ==> days@[k] < d,
        decreases days@.len() - pos,
    {
        pos += 1;
    }
    let ghost before = days@;
    if pos < days.len() && days[pos] == d {
        assert(before.contains(d)) by {
            assert(before[pos as int] == d);
        }
    } else {
        days.insert(pos, d);
        proof {
            let after = days@;
            assert forall|a: int, b: int| 0 <= a < b < after.len() implies after[a] < after[b] by {
                let ba = if a < pos { a } else { a - 1 };
                let bb = if b < pos { b } else { b - 1 };
                if a != pos && b != pos {
                    assert(before[ba] < before[bb]);
                } else if a == pos {
                    if bb > pos {
                        assert(before[pos as int] < before[bb]);
                    }
                }
            }
            assert forall|x: Day| after.contains(x) <==> before.contains(x) || x == d by {
                if after.contains(x) {
                    let i = choose|i: int| 0 <= i < after.len() && after[i] == x;
                    if i != pos {
                        let bi = if i < pos { i } else { i - 1 };
                        assert(before[bi] == x);
                    }
                }
                if before.contains(x) {
                    let i = choose|i: int| 0 <= i < before.len() && before[i] == x;
                    let ai = if i < pos { i } else { i + 1 };
                    assert(after[ai] == x);
                }
                if x == d {
                    assert(after[pos as int] == x);
                }
            }
        }
    }
}

/// What a calendar marks after a day is added to the fragment of its
/// month.
proof fn lemma_marks_update(
    frags: Seq<Fragment<Day>>,
    pos: int,
    days: Seq<Day>,
    d: Day,
    parts: (int, Month, int),
)
    requires
        0 <= pos < frags.len(),
        forall|x: Day| days.contains(x) <==> frags[pos].2.contains(x) || x == d,
    ensures
        marks(frags.update(pos, (frags[pos].0, frags[pos].1, days)), parts) <==> marks(
            frags,
            parts,
        ) || parts == (frags[pos].0 as int, frags[pos].1, d as int),
{
    let now = frags.update(pos, (frags[pos].0, frags[pos].1, days));
    if marks(now, parts) {
        let (i, k) = choose|i: int, k: int|
            0 <= i < now.len() && 0 <= k < now[i].2.len() && #[trigger] marked_at(now, i, k)
                == parts;
        if i == pos {
            let x: Day = days[k];
            assert(days.contains(x));
            if x != d {
                assert(frags[pos].2.contains(x));
                let j = choose|j: int| 0 <= j < frags[pos].2.len() && frags[pos].2[j] == x;
                assert(marked_at(frags, pos, j) == parts);
            }
        } else {
            assert(marked_at(frags, i, k) == parts);
        }
    }
    if marks(frags, parts) {
        let (i, k) = choose|i: int, k: int|
            0 <= i < frags.len() && 0 <= k < frags[i].2.len() && #[trigger] marked_at(frags, i, k)
                == parts;
        if i == pos {
            let x: Day = frags[pos].2[k];
            assert(frags[pos].2.contains(x));
            assert(days.contains(x));
            let j = choose|j: int| 0 <= j < days.len() && days[j] == x;
            assert(marked_at(now, pos, j) == parts);
        } else {
            assert(marked_at(now, i, k) == parts);
        }
    }
    if parts == (frags[pos].0 as int, frags[pos].1, d as int) {
        assert(days.contains(d));
        let j = choose|j: int| 0 <= j < days.len() && days[j] == d;
        assert(marked_at(now, pos, j) == parts);
    }
}

/// What a calendar marks after a fragment with one day is added.
proof fn lemma_marks_insert(
    frags: Seq<Fragment<Day>>,
    pos: int,
    year: Year,
    month: Month,
    d: Day,
    parts: (int, Month, int),
)
    requires
        0 <= pos <= frags.len(),
    ensures
        marks(frags.insert(pos, (year, month, seq![d])), parts) <==> marks(frags, parts) || parts
            == (year as int, month, d as int),
{
    let now = frags.insert(pos, (year, month, seq![d]));
    if marks(now, parts) {
        let (i, k) = choose|i: int, k: int|
            0 <= i < now.len() && 0 <= k < now[i].2.len() && #[trigger] marked_at(now, i, k)
                == parts;
        if i != pos {
            let bi = if i < pos { i } else { i - 1 };
            assert(now[i] == frags[bi]);
            assert(marked_at(frags, bi, k) == parts);
        }
    }
    if marks(frags, parts) {
        let (i, k) = choose|i: int, k: int|
            0 <= i < frags.len() && 0 <= k < frags[i].2.len() && #[trigger] marked_at(frags, i, k)
                == parts;
        let ai = if i < pos { i } else { i + 1 };
        assert(now[ai] == frags[i]);
        assert(marked_at(now, ai, k) == parts);
    }
    if parts == (year as int, month, d as int) {
        assert(marked_at(now, pos, 0) == parts);
    }
}

/// Converts a list of dates of years that are not negative into a calendar
/// of day numbers: one fragment for each month in which a date lies, in
/// ascending order of month, with the days of its dates in ascending order
/// and each once.
pub fn from_date(dates: Vec<Date>) -> (r: DaysCalendar<Day>)
    requires
        forall|j: int| 0 <= j < dates@.len() ==> (#[trigger] dates@[j])@.0 >= 0,
    ensures
        is_calendar_of(r@, parts_of(dates@)),
{
    let mut res: Vec<(Year, Month, Vec<Day>)> = Vec::new();
    let n = dates.len();
    let mut j: usize = 0;
    let ghost all = parts_of(dates@);
    assert(is_calendar_of(fragments_of(res@), all.subrange(0, 0))) by {
        assert forall|parts: (int, Month, int)| !marks(fragments_of(res@), parts) by {}
        assert forall|parts: (int, Month, int)| !all.subrange(0, 0).contains(parts) by {}
    }
    while j < n
        invariant
            n == dates@.len(),
            j <= n,
            all == parts_of(dates@),
            forall|j: int| 0 <= j < dates@.len() ==> (#[trigger] dates@[j])@.0 >= 0,
            is_calendar_of(fragments_of(res@), all.subrange(0, j as int)),
        decreases n - j,
    {
        let date = dates[j];
        let year = date.year() as Year;
        let month = date.month();
        let day = date.day();
        let ghost held = fragments_of(res@);
        let ghost seen = all.subrange(0, j as int);
        let ghost now = all.subrange(0, j + 1);
        let ghost target = (year as int, month, day as int);
        proof {
            assert(all[j as int] == date@);
            assert(now =~= seen.push(target));
            assert forall|parts: (int, Month, int)|
                now.contains(parts) <==> seen.contains(parts) || parts == target by {
                if now.contains(parts) {
                    let i = choose|i: int| 0 <= i < now.len() && now[i] == parts;
                    if i < seen.len() {
                        assert(seen[i] == parts);
                    }
                }
                if seen.contains(parts) {
                    let i = choose|i: int| 0 <= i < seen.len() && seen[i] == parts;
                    assert(now[i] == parts);
                }
                if parts == target {
                    assert(now[j as int] == parts);
                }
            }
        }
        let pos = find_month(&res, year, month);
        if pos < res.len() && res[pos].0 == year && res[pos].1 == month {
            let mut days = copy_items(&res[pos].2);
            assert(held[pos as int].2 == days@);
            insert_day(&mut days, day);
            let ghost new_days = days@;
            res[pos] = (year, month, days);
            proof {
                let out = fragments_of(res@);
                assert(out =~= held.update(pos as int, (year, month, new_days)));
                assert forall|a: int, b: int| 0 <= a < b < out.len() implies key_of(
                    #[trigger] out[a],
                ) < key_of(#[trigger] out[b]) by {
                    assert(key_of(out[a]) == key_of(held[a]));
                    assert(key_of(out[b]) == key_of(held[b]));
                }
                assert forall|i: int| 0 <= i < out.len() implies (#[trigger] out[i]).2.len() > 0
                    && ascending_days(out[i].2) by {
                    if i != pos {
                        assert(out[i] == held[i]);
                    }
                }
                assert forall|parts: (int, Month, int)|
                    marks(out, parts) <==> now.contains(parts) by {
                    lemma_marks_update(held, pos as int, new_days, day, parts);
                }
            }
        } else {
            let mut days: Vec<Day> = Vec::new();
            days.push(day);
            assert(days@ =~= seq![day]);
            res.insert(pos, (year, month, days));
            proof {
                let out = fragments_of(res@);
                let x: Fragment<Day> = (year, month, Seq::empty());
                assert(insertion_point(held, x, pos as int));
                assert(out =~= held.insert(pos as int, (year, month, seq![day])));
                assert forall|a: int, b: int| 0 <= a < b < out.len() implies key_of(
                    #[trigger] out[a],
                ) < key_of(#[trigger] out[b]) by {
                    let ha = if a < pos { a } else { a - 1 };
                    let hb = if b < pos { b } else { b - 1 };
                    if a != pos {
                        assert(out[a] == held[ha]);
                    }
                    if b != pos {
                        assert(out[b] == held[hb]);
                    }
                    if a != pos && b != pos {
                        assert(key_of(held[ha]) < key_of(held[hb]));
                    }
                }
                assert forall|i: int| 0 <= i < out.len() implies (#[trigger] out[i]).2.len() > 0
                    && ascending_days(out[i].2) by {
                    if i != pos {
                        let hi = if i < pos { i } else { i - 1 };
                        assert(out[i] == held[hi]);
                    }
                }
                assert forall|parts: (int, Month, int)|
                    marks(out, parts) <==> now.contains(parts) by {
                    lemma_marks_insert(held, pos as int, year, month, day, parts);
                }
            }
        }
        j += 1;
    }
    assert(all.subrange(0, n as int) =~= all);
    DaysCalendar { days_calendar: res }
}

/// A calendar of day numbers with the days of each fragment in ascending
/// order.
pub open spec fn with_sorted_days(frags: Seq<Fragment<Day>>) -> Seq<Fragment<Day>> {
    Seq::new(frags.len(), |i: int| (frags[i].0, frags[i].1, sorted_days(frags[i].2)))
}

/// The fragments of a vector are its entries with each vector of items
/// taken as a sequence.
pub proof fn lemma_fragments_as_items<T>(v: Seq<(Year, Month, Vec<T>)>)
    ensures
        fragments_of(v) == with_items(v, |items: Vec<T>| items@),
{
    assert(fragments_of(v) =~= with_items(v, |items: Vec<T>| items@));
}

/// Returns whether `day` is one of the day numbers.
pub fn lists_day(days: &Vec<Day>, day: Day) -> (r: bool)
    ensures
        r == days@.contains(day),
{
    let mut k: usize = 0;
    while k < days.len()
        invariant
            k <= days@.len(),
            forall|j: int| 0 <= j < k ==> days@[j] != day,
        decreases days@.len() - k,
    {
        if days[k] == day {
            return true;
        }
        k += 1;
    }
    false
}

impl DaysCalendar<Day> {
    /// Creates a calendar of day numbers that owns the given fragments as
    /// they are.
    pub fn new_days(data: Vec<(Year, Month, Vec<Day>)>) -> (r: Self)
        ensures
            r.days_calendar == data,
            r@ == fragments_of(data@),
    {
        Self { days_calendar: data }
    }

    /// Puts the fragments in ascending order of month, those of one month
    /// in the order in which they stood, and the days of each fragment in
    /// ascending order.
    pub fn sort(&mut self)
        ensures
            is_stable_sort(final(self)@, with_sorted_days(old(self)@)),
    {
        let mut prepared: Vec<(Year, Month, Vec<Day>)> = Vec::new();
        let n = self.days_calendar.len();
        let mut i: usize = 0;
        while i < n
            invariant
                n == self.days_calendar@.len(),
                i <= n,
                prepared@.len() == i,
                forall|k: int|
                    0 <= k < i ==> #[trigger] fragments_of(prepared@)[k] == with_sorted_days(
                        self@,
                    )[k],
            decreases n - i,
        {
            let frag = &self.days_calendar[i];
            let days = sort_days(&frag.2);
            let ghost before = prepared@;
            prepared.push((frag.0, frag.1, days));
            assert forall|k: int| 0 <= k <= i implies #[trigger] fragments_of(prepared@)[k]
                == with_sorted_days(self@)[k] by {
                if k < i {
                    assert(prepared@[k] == before[k]);
                    assert(fragments_of(before)[k] == with_sorted_days(self@)[k]);
                }
            }
            i += 1;
        }
        assert(fragments_of(prepared@) =~= with_sorted_days(self@));
        let ghost input = prepared@;
        let sorted = sort_by_month(prepared);
        proof {
            lemma_stable_sort_with_items(sorted@, input, |items: Vec<Day>| items@);
            lemma_fragments_as_items(sorted@);
            lemma_fragments_as_items(input);
        }
        self.days_calendar = sorted;
    }

    /// Sorts the calendar as `sort` does, and returns whether the first
    /// fragment of the given month then lists the day.
    pub fn contains(&mut self, year: Year, month: Month, day: Day) -> (r: bool)
        ensures
            is_stable_sort(final(self)@, with_sorted_days(old(self)@)),
            r == (has_month(final(self)@, year, month) && final(self)@[first_of_month(
                final(self)@,
                year,
                month,
            )].2.contains(day)),
    {
        self.sort();
        let target: u32 = year as u32 * 12 + month.to_index() as u32;
        let mut lo: usize = 0;
        let mut hi: usize = self.days_calendar.len();
        while lo < hi
            invariant
                lo <= hi <= self.days_calendar@.len(),
                sorted_by_month(self@),
                target == month_key(year as int, month) + 1,
                forall|i: int| 0 <= i < lo ==> entry_key(#[trigger] self@[i]) < month_key(year as int, month),
                forall|i: int|
                    hi <= i < self@.len() ==> entry_key(#[trigger] self@[i]) >= month_key(
                        year as int,
                        month,
                    ),
            decreases hi - lo,
        {
            let mid = lo + (hi - lo) / 2;
            let frag = &self.days_calendar[mid];
            assert(self@[mid as int] == (frag.0, frag.1, frag.2@));
            if (frag.0 as u32 * 12 + frag.1.to_index() as u32) < target {
                assert forall|i: int| 0 <= i < mid + 1 implies entry_key(#[trigger] self@[i])
                    < month_key(year as int, month) by {
                    if i < mid {
                        assert(entry_key(self@[i]) <= entry_key(self@[mid as int]));
                    }
                }
                lo = mid + 1;
            } else {
                assert forall|i: int| mid <= i < self@.len() implies entry_key(
                    #[trigger] self@[i],
                ) >= month_key(year as int, month) by {
                    if i > mid {
                        assert(entry_key(self@[mid as int]) <= entry_key(self@[i]));
                    }
                }
                hi = mid;
            }
        }
        if lo < self.days_calendar.len() {
            let frag = &self.days_calendar[lo];
            assert(self@[lo as int] == (frag.0, frag.1, frag.2@));
            if frag.0 == year && frag.1 == month {
                proof {
                    assert forall|j: int| 0 <= j < lo implies !((#[trigger] self@[j]).0 == year
                        && self@[j].1 == month) by {
                        assert(entry_key(self@[j]) < month_key(year as int, month));
                    }
                    crate::calendar::lemma_first_of_month(self@, year, month, lo as int);
                }
                return lists_day(&frag.2, day);
            }
        }
        proof {
            if has_month(self@, year, month) {
                let i = choose|i: int|
                    0 <= i < self@.len() && (#[trigger] self@[i]).0 == year && self@[i].1 == month;
                assert(entry_key(self@[i]) == month_key(year as int, month));
                if i > lo {
                    assert(entry_key(self@[lo as int]) <= entry_key(self@[i]));
                    lemma_month_key_injective(
                        self@[lo as int].0 as int,
                        self@[lo as int].1,
                        year as int,
                        month,
                    );
                }
                if i == lo {
                }
            }
        }
        false
    }
}

/// The groups of a vector of groups, each group with its items as
/// sequences.
pub open spec fn groups_of<T>(v: Seq<(Year, Month, Vec<Vec<T>>)>) -> Seq<Fragment<Seq<T>>> {
    Seq::new(
        v.len(),
        |i: int| (v[i].0, v[i].1, Seq::new(v[i].2@.len(), |j: int| v[i].2@[j]@)),
    )
}

/// The runs of a calendar: each fragment that follows a fragment of the
/// same month joins the run of that fragment, and every other fragment
/// starts a run. A run holds the item vectors of its fragments in order.
pub open spec fn runs<T>(frags: Seq<Fragment<T>>) -> Seq<Fragment<Seq<T>>>
    decreases frags.len(),
{
    if frags.len() == 0 {
        Seq::empty()
    } else {
        let before = runs(frags.drop_last());
        let x = frags.last();
        if frags.len() >= 2 && frags[frags.len() - 2].0 == x.0 && frags[frags.len() - 2].1
            == x.1 && before.len() > 0 {
            before.update(
                before.len() - 1,
                (x.0, x.1, before.last().2.push(x.2)),
            )
        } else {
            before.push((x.0, x.1, seq![x.2]))
        }
    }
}

/// Calls `Itertools::group_by` with the month of a fragment as the key and
/// collects each group. Consecutive fragments of one month form one group,
/// which holds their item vectors in order; the groups come in the order
/// of the fragments.
#[verifier::external_body]
fn consecutive_runs<T: Copy>(frags: &Vec<(Year, Month, Vec<T>)>) -> (r: Vec<
    (Year, Month, Vec<Vec<T>>),
>)
    ensures
        groups_of(r@) == runs(fragments_of(frags@)),
{
    let groups = frags.iter().group_by(|frag| (frag.0, frag.1));
    let mut out = Vec::new();
    for ((year, month), group) in groups.into_iter() {
        out.push((year, month, group.map(|frag| frag.2.clone()).collect()));
    }
    out
}

/// Groups the fragments of a calendar by month: consecutive fragments of
/// one month form a group, and the groups are put in ascending order of
/// month, those of one month in the order in which they stood.
pub fn group_days_calendar<T: Copy>(calendar: DaysCalendar<T>) -> (r: Vec<
    (Year, Month, Vec<Vec<T>>),
>)
    ensures
        is_stable_sort(groups_of(r@), runs(calendar@)),
{
    let grouped = consecutive_runs(&calendar.days_calendar);
    let ghost input = grouped@;
    let sorted = sort_by_month(grouped);
    proof {
        let f = |g: Vec<Vec<T>>| Seq::new(g@.len(), |j: int| g@[j]@);
        lemma_stable_sort_with_items(sorted@, input, f);
        assert(groups_of(sorted@) =~= with_items(sorted@, f));
        assert(groups_of(input) =~= with_items(input, f));
    }
    sorted
}

} // verus!
