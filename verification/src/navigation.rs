//! From flags to concrete dates, the search for the nearest and the n-th
//! marked date, and the filters by weekday and by ISO week.

use vstd::prelude::*;
use crate::calendar::{fragments_of, DaysCalendar, Fragment};
use crate::date::{date_exists, day_position, iso_week_number, weekday_number, Date, Weekday};
use crate::types::{BiDay, CalendarError, Day, Month, Year};
use crate::utils::lemma_month_length_bounds;

verus! {

/// The parts (year, month, day) of each date of a sequence.
pub open spec fn parts_of(dates: Seq<Date>) -> Seq<(int, Month, int)> {
    Seq::new(dates.len(), |i: int| dates[i]@)
}

/// The dates that a fragment marks, in ascending order: day `i + 1` for
/// each position `i` with the flag `One`, where that day exists.
pub open spec fn fragment_dates(year: Year, month: Month, flags: Seq<BiDay>) -> Seq<
    (int, Month, int),
>
    decreases flags.len(),
{
    if flags.len() == 0 {
        Seq::empty()
    } else {
        let before = fragment_dates(year, month, flags.drop_last());
        if flags.last() == BiDay::One && date_exists(year as int, month, flags.len() as int) {
            before.push((year as int, month, flags.len() as int))
        } else {
            before
        }
    }
}

/// The dates that a calendar marks, fragment after fragment.
pub open spec fn calendar_dates(frags: Seq<Fragment<BiDay>>) -> Seq<(int, Month, int)>
    decreases frags.len(),
{
    if frags.len() == 0 {
        Seq::empty()
    } else {
        calendar_dates(frags.drop_last()) + fragment_dates(
            frags.last().0,
            frags.last().1,
            frags.last().2,
        )
    }
}

/// The position on the time line of a date given by its parts.
pub open spec fn position_of(parts: (int, Month, int)) -> int {
    day_position(parts.0, parts.1, parts.2)
}

/// Dates in strictly ascending order, so that none occurs twice.
pub open spec fn ascending_dates(dates: Seq<(int, Month, int)>) -> bool {
    forall|i: int, j: int|
        0 <= i < j < dates.len() ==> position_of(#[trigger] dates[i]) < position_of(
            #[trigger] dates[j],
        )
}

/// Whether `listing` holds the dates of `dates` in ascending order, each
/// once.
pub open spec fn is_listing(listing: Seq<(int, Month, int)>, dates: Seq<(int, Month, int)>) -> bool {
    &&& ascending_dates(listing)
    &&& forall|p: (int, Month, int)| listing.contains(p) <==> dates.contains(p)
}

/// The dates of a sequence in ascending order, each once.
pub open spec fn in_order(dates: Seq<(int, Month, int)>) -> Seq<(int, Month, int)> {
    choose|listing: Seq<(int, Month, int)>| is_listing(listing, dates)
}

/// Dates in ascending order are determined by which dates they are.
pub proof fn lemma_ascending_dates_determined(a: Seq<(int, Month, int)>, b: Seq<(int, Month, int)>)
    requires
        ascending_dates(a),
        ascending_dates(b),
        forall|p: (int, Month, int)| a.contains(p) <==> b.contains(p),
    ensures
        a == b,
    decreases a.len(),
{
    if a.len() == 0 {
        if b.len() > 0 {
            assert(b.contains(b[0]));
        }
        assert(a =~= b);
    } else {
        let x = a.last();
        assert(a[a.len() - 1] == x);
        assert(a.contains(x));
        let ib = choose|i: int| 0 <= i < b.len() && b[i] == x;
        let y = b.last();
        assert(b[b.len() - 1] == y);
        assert(b.contains(y));
        let ia = choose|i: int| 0 <= i < a.len() && a[i] == y;
        assert(x == y) by {
            if ib < b.len() - 1 {
                assert(position_of(b[ib]) < position_of(b[b.len() - 1]));
                if ia < a.len() - 1 {
                    assert(position_of(a[ia]) < position_of(a[a.len() - 1]));
                }
            }
        }
        let a0 = a.drop_last();
        let b0 = b.drop_last();
        assert forall|p: (int, Month, int)| a0.contains(p) <==> b0.contains(p) by {
            if a0.contains(p) {
                let i = choose|i: int| 0 <= i < a0.len() && a0[i] == p;
                assert(a[i] == p);
                assert(position_of(a[i]) < position_of(a[a.len() - 1]));
                assert(a.contains(p));
                let j = choose|j: int| 0 <= j < b.len() && b[j] == p;
                assert(b0[j] == p);
            }
            if b0.contains(p) {
                let i = choose|i: int| 0 <= i < b0.len() && b0[i] == p;
                assert(b[i] == p);
                assert(position_of(b[i]) < position_of(b[b.len() - 1]));
                assert(b.contains(p));
                let j = choose|j: int| 0 <= j < a.len() && a[j] == p;
                assert(a0[j] == p);
            }
        }
        assert forall|i: int, j: int| 0 <= i < j < a0.len() implies position_of(
            #[trigger] a0[i],
        ) < position_of(#[trigger] a0[j]) by {
            assert(a0[i] == a[i] && a0[j] == a[j]);
        }
        assert forall|i: int, j: int| 0 <= i < j < b0.len() implies position_of(
            #[trigger] b0[i],
        ) < position_of(#[trigger] b0[j]) by {
            assert(b0[i] == b[i] && b0[j] == b[j]);
        }
        lemma_ascending_dates_determined(a0, b0);
        assert(a =~= a0.push(x));
        assert(b =~= b0.push(y));
    }
}

/// A listing of dates in ascending order is the listing of these dates.
pub proof fn lemma_in_order(listing: Seq<(int, Month, int)>, dates: Seq<(int, Month, int)>)
    requires
        is_listing(listing, dates),
    ensures
        in_order(dates) == listing,
{
    let chosen = in_order(dates);
    assert(is_listing(chosen, dates));
    assert forall|p: (int, Month, int)| chosen.contains(p) <==> listing.contains(p) by {
        assert(chosen.contains(p) <==> dates.contains(p));
        assert(listing.contains(p) <==> dates.contains(p));
    }
    lemma_ascending_dates_determined(chosen, listing);
}

/// Whether `d` is the date of the sequence nearest after the reference
/// position: one of its dates, after the reference, with no date of the
/// sequence between the two.
pub open spec fn nearest_after(
    dates: Seq<(int, Month, int)>,
    reference: int,
    d: (int, Month, int),
) -> bool {
    &&& dates.contains(d)
    &&& position_of(d) > reference
    &&& forall|p: (int, Month, int)|
        dates.contains(p) && position_of(p) > reference ==> position_of(d) <= position_of(p)
}

/// Whether `d` is the date of the sequence nearest before the reference
/// position: one of its dates, before the reference, with no date of the
/// sequence between the two.
pub open spec fn nearest_before(
    dates: Seq<(int, Month, int)>,
    reference: int,
    d: (int, Month, int),
) -> bool {
    &&& dates.contains(d)
    &&& position_of(d) < reference
    &&& forall|p: (int, Month, int)|
        dates.contains(p) && position_of(p) < reference ==> position_of(p) <= position_of(d)
}

/// The number of dates after the reference position among the first `k`
/// dates of the sequence.
pub open spec fn count_after(dates: Seq<(int, Month, int)>, reference: int, k: int) -> int
    decreases k,
{
    if k <= 0 {
        0
    } else {
        count_after(dates, reference, k - 1) + if position_of(dates[k - 1]) > reference {
            1int
        } else {
            0int
        }
    }
}

/// The number of dates before the reference position among the dates of
/// the sequence from index `k` on.
pub open spec fn count_before(dates: Seq<(int, Month, int)>, reference: int, k: int) -> int
    decreases dates.len() - k,
{
    if k >= dates.len() {
        0
    } else {
        count_before(dates, reference, k + 1) + if position_of(dates[k]) < reference {
            1int
        } else {
            0int
        }
    }
}

/// Index `i` holds the `n`-th date after the reference position, counted
/// from the start of the sequence, for `n >= 1`.
pub open spec fn is_nth_after(dates: Seq<(int, Month, int)>, reference: int, n: int, i: int) -> bool {
    &&& 0 <= i < dates.len()
    &&& position_of(dates[i]) > reference
    &&& count_after(dates, reference, i) == n - 1
}

/// Index `i` holds the `n`-th date before the reference position, counted
/// from the end of the sequence, for `n >= 1`.
pub open spec fn is_nth_before(dates: Seq<(int, Month, int)>, reference: int, n: int, i: int) -> bool {
    &&& 0 <= i < dates.len()
    &&& position_of(dates[i]) < reference
    &&& count_before(dates, reference, i + 1) == n - 1
}

/// The ways to combine the flag of a day with whether the day belongs to a
/// chosen set of weekdays or weeks.
#[derive(Debug, Copy, Clone, PartialEq, Eq, Structural)]
pub enum DayFilter {
    /// Keep the day if it is marked and belongs to the set.
    Both,
    /// Mark the day if it is marked or belongs to the set.
    Either,
    /// Keep the day if it is marked and does not belong to the set.
    Neither,
}

impl DayFilter {
    /// The flag of a day after the filter.
    pub open spec fn flag(self, flag: BiDay, member: bool) -> BiDay {
        let keep = match self {
            DayFilter::Both => flag == BiDay::One && member,
            DayFilter::Either => flag == BiDay::One || member,
            DayFilter::Neither => flag == BiDay::One && !member,
        };
        if keep {
            BiDay::One
        } else {
            BiDay::Zero
        }
    }

    /// Returns the flag of a day after the filter, given its flag before
    /// and whether the day belongs to the chosen set.
    pub fn apply(&self, flag: BiDay, member: bool) -> (r: BiDay)
        ensures
            r == self.flag(flag, member),
    {
        let keep = match self {
            DayFilter::Both => flag == BiDay::One && member,
            DayFilter::Either => flag == BiDay::One || member,
            DayFilter::Neither => flag == BiDay::One && !member,
        };
        if keep {
            BiDay::One
        } else {
            BiDay::Zero
        }
    }
}

/// Whether the weekday with the given number is one of `weekdays`.
pub open spec fn has_weekday(weekdays: Seq<Weekday>, number: int) -> bool {
    exists|k: int| 0 <= k < weekdays.len() && (#[trigger] weekdays[k]).number() == number
}

/// Returns whether `day` is one of `weekdays`.
pub fn weekday_listed(weekdays: &Vec<Weekday>, day: Weekday) -> (r: bool)
    ensures
        r == has_weekday(weekdays@, day.number()),
{
    let mut k: usize = 0;
    while k < weekdays.len()
        invariant
            k <= weekdays@.len(),
            forall|j: int| 0 <= j < k ==> (#[trigger] weekdays@[j]).number() != day.number(),
        decreases weekdays@.len() - k,
    {
        if weekdays[k] == day {
            return true;
        }
        k += 1;
    }
    false
}

/// Whether the week with the given number is one of `weeks`.
pub open spec fn has_week(weeks: Seq<u32>, number: int) -> bool {
    exists|k: int| 0 <= k < weeks.len() && #[trigger] weeks[k] == number
}

/// Returns whether `week` is one of `weeks`.
pub fn week_listed(weeks: &Vec<u32>, week: u8) -> (r: bool)
    ensures
        r == has_week(weeks@, week as int),
{
    let mut k: usize = 0;
    while k < weeks.len()
        invariant
            k <= weeks@.len(),
            forall|j: int| 0 <= j < k ==> #[trigger] weeks@[j] != week as u32,
        decreases weeks@.len() - k,
    {
        if weeks[k] == week as u32 {
            return true;
        }
        k += 1;
    }
    false
}

/// Whether each of the first `len` days of a month exists: there are no
/// more of them than the month has days, and the year is not past 9999.
pub open spec fn fits_month(year: Year, month: Month, len: nat) -> bool {
    len == 0 || date_exists(year as int, month, len as int)
}

/// Whether every fragment has at most as many flags as its month has days.
pub open spec fn all_fit(frags: Seq<Fragment<BiDay>>) -> bool {
    forall|f: int|
        0 <= f < frags.len() ==> fits_month(
            (#[trigger] frags[f]).0,
            frags[f].1,
            frags[f].2.len(),
        )
}

/// The flags of a fragment filtered by the weekday of each day.
pub open spec fn weekday_filtered_days(
    year: Year,
    month: Month,
    flags: Seq<BiDay>,
    weekdays: Seq<Weekday>,
    mode: DayFilter,
) -> Seq<BiDay> {
    Seq::new(
        flags.len(),
        |i: int|
            mode.flag(
                flags[i],
                has_weekday(weekdays, weekday_number(year as int, month.index(), i + 1)),
            ),
    )
}

/// A calendar with every fragment filtered by the weekday of each day.
pub open spec fn weekday_filtered(
    frags: Seq<Fragment<BiDay>>,
    weekdays: Seq<Weekday>,
    mode: DayFilter,
) -> Seq<Fragment<BiDay>> {
    Seq::new(
        frags.len(),
        |f: int|
            (
                frags[f].0,
                frags[f].1,
                weekday_filtered_days(frags[f].0, frags[f].1, frags[f].2, weekdays, mode),
            ),
    )
}

/// The flags of a fragment filtered by the ISO week of each day.
pub open spec fn week_filtered_days(
    year: Year,
    month: Month,
    flags: Seq<BiDay>,
    weeks: Seq<u32>,
    mode: DayFilter,
) -> Seq<BiDay> {
    Seq::new(
        flags.len(),
        |i: int|
            mode.flag(
                flags[i],
                has_week(weeks, iso_week_number(year as int, month.index(), i + 1)),
            ),
    )
}

/// A calendar with every fragment filtered by the ISO week of each day.
pub open spec fn week_filtered(
    frags: Seq<Fragment<BiDay>>,
    weeks: Seq<u32>,
    mode: DayFilter,
) -> Seq<Fragment<BiDay>> {
    Seq::new(
        frags.len(),
        |f: int|
            (
                frags[f].0,
                frags[f].1,
                week_filtered_days(frags[f].0, frags[f].1, frags[f].2, weeks, mode),
            ),
    )
}

/// The dates of the calendar after one more fragment.
proof fn lemma_calendar_dates_push(frags: Seq<Fragment<BiDay>>, k: int)
    requires
        0 <= k < frags.len(),
    ensures
        calendar_dates(frags.subrange(0, k + 1)) == calendar_dates(frags.subrange(0, k))
            + fragment_dates(frags[k].0, frags[k].1, frags[k].2),
{
    let now = frags.subrange(0, k + 1);
    assert(now.drop_last() =~= frags.subrange(0, k));
    assert(now.last() == frags[k]);
}

/// Filters the flags of one fragment by the weekday of each day.
fn weekday_filter_days(
    year: Year,
    month: Month,
    flags: &Vec<BiDay>,
    weekdays: &Vec<Weekday>,
    mode: DayFilter,
) -> (r: Result<Vec<BiDay>, CalendarError>)
    ensures
        r is Ok <==> fits_month(year, month, flags@.len()),
        r matches Ok(d) ==> d@ == weekday_filtered_days(year, month, flags@, weekdays@, mode),
        r matches Err(e) ==> e == CalendarError::InvalidDate,
{
    let len = flags.len();
    let mut days: Vec<BiDay> = Vec::with_capacity(len);
    let mut i: usize = 0;
    while i < len
        invariant
            len == flags@.len(),
            i <= len,
            days@.len() == i,
            fits_month(year, month, i as nat),
            forall|j: int|
                0 <= j < i ==> days@[j] == weekday_filtered_days(
                    year,
                    month,
                    flags@,
                    weekdays@,
                    mode,
                )[j],
        decreases len - i,
    {
        proof {
            lemma_month_length_bounds(year as int, month);
        }
        if i >= 31 {
            return Err(CalendarError::InvalidDate);
        }
        let date = match Date::from_calendar_date(year as i32, month, (i + 1) as Day) {
            Ok(d) => d,
            Err(e) => { return Err(e); },
        };
        let member = weekday_listed(weekdays, date.weekday());
        days.push(mode.apply(flags[i], member));
        i += 1;
    }
    assert(days@ =~= weekday_filtered_days(year, month, flags@, weekdays@, mode));
    Ok(days)
}

/// Filters the flags of one fragment by the ISO week of each day.
fn week_filter_days(
    year: Year,
    month: Month,
    flags: &Vec<BiDay>,
    weeks: &Vec<u32>,
    mode: DayFilter,
) -> (r: Result<Vec<BiDay>, CalendarError>)
    ensures
        r is Ok <==> fits_month(year, month, flags@.len()),
        r matches Ok(d) ==> d@ == week_filtered_days(year, month, flags@, weeks@, mode),
        r matches Err(e) ==> e == CalendarError::InvalidDate,
{
    let len = flags.len();
    let mut days: Vec<BiDay> = Vec::with_capacity(len);
    let mut i: usize = 0;
    while i < len
        invariant
            len == flags@.len(),
            i <= len,
            days@.len() == i,
            fits_month(year, month, i as nat),
            forall|j: int|
                0 <= j < i ==> days@[j] == week_filtered_days(year, month, flags@, weeks@, mode)[j],
        decreases len - i,
    {
        proof {
            lemma_month_length_bounds(year as int, month);
        }
        if i >= 31 {
            return Err(CalendarError::InvalidDate);
        }
        let date = match Date::from_calendar_date(year as i32, month, (i + 1) as Day) {
            Ok(d) => d,
            Err(e) => { return Err(e); },
        };
        let member = week_listed(weeks, date.iso_week());
        days.push(mode.apply(flags[i], member));
        i += 1;
    }
    assert(days@ =~= week_filtered_days(year, month, flags@, weeks@, mode));
    Ok(days)
}

/// Adds a date to dates in ascending order, at its place in the order,
/// unless it is one of them already.
fn insert_date(dates: &mut Vec<Date>, date: Date)
    requires
        ascending_dates(parts_of(old(dates)@)),
    ensures
        ascending_dates(parts_of(final(dates)@)),
        forall|p: (int, Month, int)|
            parts_of(final(dates)@).contains(p) <==> parts_of(old(dates)@).contains(p) || p
                == date@,
{
    let ghost before = parts_of(dates@);
    let mut pos: usize = 0;
    while pos < dates.len() && dates[pos].is_before(&date)
        invariant
            pos <= dates@.len(),
            before == parts_of(dates@),
            forall|k: int| 0 <= k < pos ==> position_of(#[trigger] before[k]) < date.position(),
        decreases dates@.len() - pos,
    {
        assert(before[pos as int] == dates@[pos as int]@);
        pos += 1;
    }
    let mut present = false;
    if pos < dates.len() {
        let held = dates[pos];
        assert(before[pos as int] == held@);
        if !date.is_before(&held) {
            proof {
                use_type_invariant(&held);
                use_type_invariant(&date);
                lemma_month_length_bounds(held@.0, held@.1);
                lemma_month_length_bounds(date@.0, date@.1);
                assert(held@.1.index() == date@.1.index());
                assert(held@ == date@);
            }
            present = true;
        }
    }
    if present {
        assert(before.contains(date@)) by {
            assert(before[pos as int] == date@);
        }
    } else {
        dates.insert(pos, date);
        proof {
            let after = parts_of(dates@);
            assert(after =~= before.insert(pos as int, date@));
            assert forall|a: int, b: int| 0 <= a < b < after.len() implies position_of(
                #[trigger] after[a],
            ) < position_of(#[trigger] after[b]) by {
                let ba = if a < pos { a } else { a - 1 };
                let bb = if b < pos { b } else { b - 1 };
                if a != pos && b != pos {
                    assert(position_of(before[ba]) < position_of(before[bb]));
                } else if a == pos {
                    assert(after[b] == before[bb]);
                    if bb > pos {
                        assert(position_of(before[pos as int]) < position_of(before[bb]));
                    }
                } else {
                    assert(after[a] == before[ba]);
                }
            }
            assert forall|p: (int, Month, int)|
                after.contains(p) <==> before.contains(p) || p == date@ by {
                if after.contains(p) {
                    let i = choose|i: int| 0 <= i < after.len() && after[i] == p;
                    if i != pos {
                        let bi = if i < pos { i } else { i - 1 };
                        assert(before[bi] == p);
                    }
                }
                if before.contains(p) {
                    let i = choose|i: int| 0 <= i < before.len() && before[i] == p;
                    let ai = if i < pos { i } else { i + 1 };
                    assert(after[ai] == p);
                }
                if p == date@ {
                    assert(after[pos as int] == p);
                }
            }
        }
    }
}

impl DaysCalendar<BiDay> {
    /// Returns the dates that the calendar marks, fragment after fragment
    /// and in ascending order within a fragment. A marked position that is
    /// no day of its month gives no date.
    pub fn dates(&self) -> (r: Vec<Date>)
        ensures
            parts_of(r@) == calendar_dates(self@),
    {
        let mut dates: Vec<Date> = Vec::new();
        let n = self.days_calendar.len();
        let mut k: usize = 0;
        assert(self@.subrange(0, 0) =~= Seq::<Fragment<BiDay>>::empty());
        assert(parts_of(dates@) =~= calendar_dates(self@.subrange(0, 0)));
        while k < n
            invariant
                n == self.days_calendar@.len(),
                k <= n,
                parts_of(dates@) == calendar_dates(self@.subrange(0, k as int)),
            decreases n - k,
        {
            let frag = &self.days_calendar[k];
            let year = frag.0;
            let month = frag.1;
            let len = frag.2.len();
            let ghost before = calendar_dates(self@.subrange(0, k as int));
            let mut i: usize = 0;
            assert(frag.2@.subrange(0, 0) =~= Seq::<BiDay>::empty());
            assert(parts_of(dates@) =~= before + fragment_dates(
                year,
                month,
                frag.2@.subrange(0, 0),
            ));
            while i < len
                invariant
                    len == frag.2@.len(),
                    i <= len,
                    parts_of(dates@) == before + fragment_dates(
                        year,
                        month,
                        frag.2@.subrange(0, i as int),
                    ),
                decreases len - i,
            {
                let ghost seen = frag.2@.subrange(0, i as int);
                let ghost now = frag.2@.subrange(0, i as int + 1);
                let ghost old_dates = dates@;
                proof {
                    assert(now.drop_last() =~= seen);
                    assert(now.last() == frag.2@[i as int]);
                    lemma_month_length_bounds(year as int, month);
                }
                if frag.2[i] == BiDay::One && i < 31 {
                    let day: Day = (i + 1) as Day;
                    match Date::from_calendar_date(year as i32, month, day) {
                        Ok(date) => {
                            dates.push(date);
                            assert(parts_of(dates@) =~= parts_of(old_dates).push(date@));
                            assert(parts_of(dates@) =~= before + fragment_dates(
                                year,
                                month,
                                now,
                            ));
                        },
                        Err(_) => {},
                    }
                }
                i += 1;
            }
            proof {
                assert(frag.2@.subrange(0, len as int) =~= frag.2@);
                lemma_calendar_dates_push(self@, k as int);
            }
            k += 1;
        }
        assert(self@.subrange(0, n as int) =~= self@);
        dates
    }

    /// Returns the dates that the calendar marks in ascending order, each
    /// once, in whatever order the calendar holds its fragments.
    pub fn sorted_dates(&self) -> (r: Vec<Date>)
        ensures
            is_listing(parts_of(r@), calendar_dates(self@)),
            parts_of(r@) == in_order(calendar_dates(self@)),
    {
        let dates = self.dates();
        let ghost all = parts_of(dates@);
        let mut sorted: Vec<Date> = Vec::new();
        let mut i: usize = 0;
        assert(parts_of(sorted@) =~= Seq::<(int, Month, int)>::empty());
        while i < dates.len()
            invariant
                i <= dates@.len(),
                all == parts_of(dates@),
                ascending_dates(parts_of(sorted@)),
                forall|p: (int, Month, int)|
                    parts_of(sorted@).contains(p) <==> all.subrange(0, i as int).contains(p),
            decreases dates@.len() - i,
        {
            let ghost held = parts_of(sorted@);
            let ghost seen = all.subrange(0, i as int);
            let ghost now = all.subrange(0, i + 1);
            let date = dates[i];
            insert_date(&mut sorted, date);
            proof {
                assert(all[i as int] == date@);
                assert(now =~= seen.push(date@));
                assert forall|p: (int, Month, int)|
                    parts_of(sorted@).contains(p) <==> now.contains(p) by {
                    if now.contains(p) {
                        let k = choose|k: int| 0 <= k < now.len() && now[k] == p;
                        if k < seen.len() {
                            assert(seen[k] == p);
                        }
                    }
                    if seen.contains(p) {
                        let k = choose|k: int| 0 <= k < seen.len() && seen[k] == p;
                        assert(now[k] == p);
                    }
                    if p == date@ {
                        assert(now[i as int] == p);
                    }
                }
            }
            i += 1;
        }
        proof {
            assert(all.subrange(0, all.len() as int) =~= all);
            lemma_in_order(parts_of(sorted@), calendar_dates(self@));
        }
        sorted
    }

    /// Returns the marked date nearest after the given day: the earliest
    /// marked date that lies after it. `None` when the given day does not
    /// exist or no marked date lies after it.
    pub fn next_day(&self, year: Year, month: Month, day: Day) -> (r: Option<Date>)
        ensures
            r is None <==> !date_exists(year as int, month, day as int) || forall|
                p: (int, Month, int),
            |
                calendar_dates(self@).contains(p) ==> position_of(p) <= day_position(
                    year as int,
                    month,
                    day as int,
                ),
            r matches Some(d) ==> nearest_after(
                calendar_dates(self@),
                day_position(year as int, month, day as int),
                d@,
            ),
    {
        let reference = match Date::from_calendar_date(year as i32, month, day) {
            Ok(d) => d,
            Err(_) => { return None; },
        };
        let dates = self.sorted_dates();
        let ghost listing = parts_of(dates@);
        let mut i: usize = 0;
        while i < dates.len()
            invariant
                i <= dates@.len(),
                listing == parts_of(dates@),
                is_listing(listing, calendar_dates(self@)),
                reference@ == (year as int, month, day as int),
                date_exists(year as int, month, day as int),
                forall|j: int| 0 <= j < i ==> position_of(#[trigger] listing[j]) <= reference.position(),
            decreases dates@.len() - i,
        {
            let date = dates[i];
            assert(listing[i as int] == date@);
            if reference.is_before(&date) {
                proof {
                    assert(listing.contains(date@));
                    assert forall|p: (int, Month, int)|
                        calendar_dates(self@).contains(p) && position_of(p)
                            > reference.position() implies position_of(date@) <= position_of(
                        p,
                    ) by {
                        assert(listing.contains(p));
                        let k = choose|k: int| 0 <= k < listing.len() && listing[k] == p;
                        if k < i {
                            assert(position_of(listing[k]) <= reference.position());
                        } else if k > i {
                            assert(position_of(listing[i as int]) < position_of(listing[k]));
                        }
                    }
                }
                return Some(date);
            }
            i += 1;
        }
        proof {
            assert forall|p: (int, Month, int)| calendar_dates(self@).contains(p) implies position_of(
                p,
            ) <= reference.position() by {
                assert(listing.contains(p));
                let k = choose|k: int| 0 <= k < listing.len() && listing[k] == p;
                assert(position_of(listing[k]) <= reference.position());
            }
        }
        None
    }

    /// Returns the marked date nearest before the given day: the latest
    /// marked date that lies before it. `None` when the given day does not
    /// exist or no marked date lies before it.
    pub fn previous_day(&self, year: Year, month: Month, day: Day) -> (r: Option<Date>)
        ensures
            r is None <==> !date_exists(year as int, month, day as int) || forall|
                p: (int, Month, int),
            |
                calendar_dates(self@).contains(p) ==> position_of(p) >= day_position(
                    year as int,
                    month,
                    day as int,
                ),
            r matches Some(d) ==> nearest_before(
                calendar_dates(self@),
                day_position(year as int, month, day as int),
                d@,
            ),
    {
        let reference = match Date::from_calendar_date(year as i32, month, day) {
            Ok(d) => d,
            Err(_) => { return None; },
        };
        let dates = self.sorted_dates();
        let ghost listing = parts_of(dates@);
        let mut i: usize = dates.len();
        while i > 0
            invariant
                i <= dates@.len(),
                listing == parts_of(dates@),
                is_listing(listing, calendar_dates(self@)),
                reference@ == (year as int, month, day as int),
                date_exists(year as int, month, day as int),
                forall|j: int|
                    i <= j < dates@.len() ==> position_of(#[trigger] listing[j])
                        >= reference.position(),
            decreases i,
        {
            i -= 1;
            let date = dates[i];
            assert(listing[i as int] == date@);
            if date.is_before(&reference) {
                proof {
                    assert(listing.contains(date@));
                    assert forall|p: (int, Month, int)|
                        calendar_dates(self@).contains(p) && position_of(p)
                            < reference.position() implies position_of(p) <= position_of(
                        date@,
                    ) by {
                        assert(listing.contains(p));
                        let k = choose|k: int| 0 <= k < listing.len() && listing[k] == p;
                        if k > i {
                            assert(position_of(listing[k]) >= reference.position());
                        } else if k < i {
                            assert(position_of(listing[k]) < position_of(listing[i as int]));
                        }
                    }
                }
                return Some(date);
            }
        }
        proof {
            assert forall|p: (int, Month, int)| calendar_dates(self@).contains(p) implies position_of(
                p,
            ) >= reference.position() by {
                assert(listing.contains(p));
                let k = choose|k: int| 0 <= k < listing.len() && listing[k] == p;
                assert(position_of(listing[k]) >= reference.position());
            }
        }
        None
    }

    /// Returns the `n`-th marked date after the given day for a positive
    /// `n`, the `-n`-th marked date before it for a negative `n`, counted
    /// over the marked dates in ascending order, each once, and the given
    /// day itself, marked or not, for `n == 0`. `Ok(None)` when the
    /// calendar marks fewer such dates, `InvalidDate` when the given day
    /// does not exist.
    pub fn seek_nth_day(&self, year: Year, month: Month, day: Day, n: isize) -> (r: Result<
        Option<Date>,
        CalendarError,
    >)
        ensures
            r is Ok <==> date_exists(year as int, month, day as int),
            r matches Err(e) ==> e == CalendarError::InvalidDate,
            n == 0 ==> (r matches Ok(found) ==> found matches Some(d) && d@ == (
                year as int,
                month,
                day as int,
            )),
            n > 0 ==> (r matches Ok(found) ==> nth_after_is(
                in_order(calendar_dates(self@)),
                day_position(year as int, month, day as int),
                n as int,
                found,
            )),
            n < 0 ==> (r matches Ok(found) ==> nth_before_is(
                in_order(calendar_dates(self@)),
                day_position(year as int, month, day as int),
                -(n as int),
                found,
            )),
    {
        let reference = match Date::from_calendar_date(year as i32, month, day) {
            Ok(d) => d,
            Err(e) => { return Err(e); },
        };
        let dates = self.sorted_dates();
        let ghost all = in_order(calendar_dates(self@));
        assert(parts_of(dates@).len() == dates@.len());
        if n > 0 {
            let mut left: isize = n;
            let mut i: usize = 0;
            while i < dates.len()
                invariant
                    i <= dates@.len(),
                    parts_of(dates@) == all,
                    all == in_order(calendar_dates(self@)),
                    reference@ == (year as int, month, day as int),
                    date_exists(year as int, month, day as int),
                    0 < left <= n,
                    count_after(all, reference.position(), i as int) == n - left,
                decreases dates@.len() - i,
            {
                let date = dates[i];
                assert(parts_of(dates@)[i as int] == date@);
                if reference.is_before(&date) {
                    left -= 1;
                    if left == 0 {
                        assert(is_nth_after(all, reference.position(), n as int, i as int));
                        return Ok(Some(date));
                    }
                }
                i += 1;
            }
            Ok(None)
        } else if n < 0 {
            let mut left: isize = n;
            let mut i: usize = dates.len();
            while i > 0
                invariant
                    i <= dates@.len(),
                    parts_of(dates@) == all,
                    all == in_order(calendar_dates(self@)),
                    reference@ == (year as int, month, day as int),
                    date_exists(year as int, month, day as int),
                    n <= left < 0,
                    count_before(all, reference.position(), i as int) == left - n,
                decreases i,
            {
                i -= 1;
                let date = dates[i];
                assert(parts_of(dates@)[i as int] == date@);
                if date.is_before(&reference) {
                    left += 1;
                    if left == 0 {
                        assert(is_nth_before(all, reference.position(), -(n as int), i as int));
                        return Ok(Some(date));
                    }
                }
            }
            Ok(None)
        } else {
            Ok(Some(reference))
        }
    }

    /// The worker of the weekday filters.
    fn filter_by_weekday(&self, weekdays: &Vec<Weekday>, mode: DayFilter) -> (r: Result<
        DaysCalendar<BiDay>,
        CalendarError,
    >)
        ensures
            r is Ok <==> all_fit(self@),
            r matches Ok(c) ==> c@ == weekday_filtered(self@, weekdays@, mode),
            r matches Err(e) ==> e == CalendarError::InvalidDate,
    {
        let mut filtered: Vec<(Year, Month, Vec<BiDay>)> = Vec::new();
        let n = self.days_calendar.len();
        let mut f: usize = 0;
        while f < n
            invariant
                n == self.days_calendar@.len(),
                f <= n,
                filtered@.len() == f,
                forall|k: int|
                    0 <= k < f ==> fits_month(
                        (#[trigger] self@[k]).0,
                        self@[k].1,
                        self@[k].2.len(),
                    ),
                forall|k: int|
                    0 <= k < f ==> #[trigger] fragments_of(filtered@)[k] == weekday_filtered(
                        self@,
                        weekdays@,
                        mode,
                    )[k],
            decreases n - f,
        {
            let frag = &self.days_calendar[f];
            assert(self@[f as int] == (frag.0, frag.1, frag.2@));
            let days = match weekday_filter_days(frag.0, frag.1, &frag.2, weekdays, mode) {
                Ok(d) => d,
                Err(e) => { return Err(e); },
            };
            let ghost before = filtered@;
            filtered.push((frag.0, frag.1, days));
            assert forall|k: int| 0 <= k <= f implies #[trigger] fragments_of(filtered@)[k]
                == weekday_filtered(self@, weekdays@, mode)[k] by {
                if k < f {
                    assert(filtered@[k] == before[k]);
                    assert(fragments_of(before)[k] == weekday_filtered(
                        self@,
                        weekdays@,
                        mode,
                    )[k]);
                }
            }
            f += 1;
        }
        assert(fragments_of(filtered@) =~= weekday_filtered(self@, weekdays@, mode));
        Ok(DaysCalendar { days_calendar: filtered })
    }

    /// Keeps the marked days that fall on one of `weekdays`. Fails with
    /// `InvalidDate` when a fragment has a position that is no day of its
    /// month.
    pub fn and_weekdays(&self, weekdays: Vec<Weekday>) -> (r: Result<
        DaysCalendar<BiDay>,
        CalendarError,
    >)
        ensures
            r is Ok <==> all_fit(self@),
            r matches Ok(c) ==> c@ == weekday_filtered(self@, weekdays@, DayFilter::Both),
            r matches Err(e) ==> e == CalendarError::InvalidDate,
    {
        self.filter_by_weekday(&weekdays, DayFilter::Both)
    }

    /// Marks, besides the marked days, the days that fall on one of
    /// `weekdays`. Fails with `InvalidDate` when a fragment has a position
    /// that is no day of its month.
    pub fn or_weekdays(&self, weekdays: Vec<Weekday>) -> (r: Result<
        DaysCalendar<BiDay>,
        CalendarError,
    >)
        ensures
            r is Ok <==> all_fit(self@),
            r matches Ok(c) ==> c@ == weekday_filtered(self@, weekdays@, DayFilter::Either),
            r matches Err(e) ==> e == CalendarError::InvalidDate,
    {
        self.filter_by_weekday(&weekdays, DayFilter::Either)
    }

    /// Keeps the marked days that fall on none of `weekdays`. Fails with
    /// `InvalidDate` when a fragment has a position that is no day of its
    /// month.
    pub fn not_weekdays(&self, weekdays: Vec<Weekday>) -> (r: Result<
        DaysCalendar<BiDay>,
        CalendarError,
    >)
        ensures
            r is Ok <==> all_fit(self@),
            r matches Ok(c) ==> c@ == weekday_filtered(self@, weekdays@, DayFilter::Neither),
            r matches Err(e) ==> e == CalendarError::InvalidDate,
    {
        self.filter_by_weekday(&weekdays, DayFilter::Neither)
    }

    /// The worker of the ISO week filters.
    fn filter_by_week(&self, weeks: &Vec<u32>, mode: DayFilter) -> (r: Result<
        DaysCalendar<BiDay>,
        CalendarError,
    >)
        ensures
            r is Ok <==> all_fit(self@),
            r matches Ok(c) ==> c@ == week_filtered(self@, weeks@, mode),
            r matches Err(e) ==> e == CalendarError::InvalidDate,
    {
        let mut filtered: Vec<(Year, Month, Vec<BiDay>)> = Vec::new();
        let n = self.days_calendar.len();
        let mut f: usize = 0;
        while f < n
            invariant
                n == self.days_calendar@.len(),
                f <= n,
                filtered@.len() == f,
                forall|k: int|
                    0 <= k < f ==> fits_month(
                        (#[trigger] self@[k]).0,
                        self@[k].1,
                        self@[k].2.len(),
                    ),
                forall|k: int|
                    0 <= k < f ==> #[trigger] fragments_of(filtered@)[k] == week_filtered(
                        self@,
                        weeks@,
                        mode,
                    )[k],
            decreases n - f,
        {
            let frag = &self.days_calendar[f];
            assert(self@[f as int] == (frag.0, frag.1, frag.2@));
            let days = match week_filter_days(frag.0, frag.1, &frag.2, weeks, mode) {
                Ok(d) => d,
                Err(e) => { return Err(e); },
            };
            let ghost before = filtered@;
            filtered.push((frag.0, frag.1, days));
            assert forall|k: int| 0 <= k <= f implies #[trigger] fragments_of(filtered@)[k]
                == week_filtered(self@, weeks@, mode)[k] by {
                if k < f {
                    assert(filtered@[k] == before[k]);
                    assert(fragments_of(before)[k] == week_filtered(self@, weeks@, mode)[k]);
                }
            }
            f += 1;
        }
        assert(fragments_of(filtered@) =~= week_filtered(self@, weeks@, mode));
        Ok(DaysCalendar { days_calendar: filtered })
    }

    /// Keeps the marked days that lie in one of the ISO `weeks`. Fails with
    /// `InvalidDate` when a fragment has a position that is no day of its
    /// month.
    pub fn and_iso_weeks(&self, weeks: Vec<u32>) -> (r: Result<DaysCalendar<BiDay>, CalendarError>)
        ensures
            r is Ok <==> all_fit(self@),
            r matches Ok(c) ==> c@ == week_filtered(self@, weeks@, DayFilter::Both),
            r matches Err(e) ==> e == CalendarError::InvalidDate,
    {
        self.filter_by_week(&weeks, DayFilter::Both)
    }

    /// Marks, besides the marked days, the days that lie in one of the ISO
    /// `weeks`. Fails with `InvalidDate` when a fragment has a position
    /// that is no day of its month.
    pub fn or_iso_weeks(&self, weeks: Vec<u32>) -> (r: Result<DaysCalendar<BiDay>, CalendarError>)
        ensures
            r is Ok <==> all_fit(self@),
            r matches Ok(c) ==> c@ == week_filtered(self@, weeks@, DayFilter::Either),
            r matches Err(e) ==> e == CalendarError::InvalidDate,
    {
        self.filter_by_week(&weeks, DayFilter::Either)
    }

    /// Keeps the marked days that lie in none of the ISO `weeks`. Fails
    /// with `InvalidDate` when a fragment has a position that is no day of
    /// its month.
    pub fn not_iso_weeks(&self, weeks: Vec<u32>) -> (r: Result<DaysCalendar<BiDay>, CalendarError>)
        ensures
            r is Ok <==> all_fit(self@),
            r matches Ok(c) ==> c@ == week_filtered(self@, weeks@, DayFilter::Neither),
            r matches Err(e) ==> e == CalendarError::InvalidDate,
    {
        self.filter_by_week(&weeks, DayFilter::Neither)
    }
}

/// What `seek_nth_day` finds going forward in dates in ascending order:
/// the `n`-th date after the reference position, or nothing when fewer than
/// `n` dates lie after it.
pub open spec fn nth_after_is(
    dates: Seq<(int, Month, int)>,
    reference: int,
    n: int,
    found: Option<Date>,
) -> bool {
    match found {
        Some(d) => exists|i: int| is_nth_after(dates, reference, n, i) && d@ == dates[i],
        None => count_after(dates, reference, dates.len() as int) < n,
    }
}

/// What `seek_nth_day` finds going backward in dates in ascending order:
/// the `n`-th date before the reference position, or nothing when fewer
/// than `n` dates lie before it.
pub open spec fn nth_before_is(
    dates: Seq<(int, Month, int)>,
    reference: int,
    n: int,
    found: Option<Date>,
) -> bool {
    match found {
        Some(d) => exists|i: int| is_nth_before(dates, reference, n, i) && d@ == dates[i],
        None => count_before(dates, reference, 0) < n,
    }
}

/// Returns the dates that a calendar marks, fragment after fragment and in
/// ascending order within a fragment.
pub fn to_date(calendar: DaysCalendar<BiDay>) -> (r: Vec<Date>)
    ensures
        parts_of(r@) == calendar_dates(calendar@),
{
    calendar.dates()
}

} // verus!
