//! Laws that relate the operations of the crate to one another.

use vstd::prelude::*;
use crate::binary::{and_flag, normalized, or_flag, pointwise};
use crate::calendar::{
    ascending, has_month, inverted, is_merge, key_of, lemma_merged_absent, merged_days, Fragment,
};
use crate::convert::{all_days_fit, as_flags, is_calendar_of, marked_at, marks};
use crate::date::{date_exists, Date};
use crate::navigation::{
    ascending_dates, calendar_dates, fragment_dates, lemma_ascending_dates_determined, parts_of,
    position_of,
};
use crate::types::{BiDay, Day, Month, Year};
use crate::utils::{canonical_days, lemma_month_length_bounds, supported_year};
use crate::year_spec::YearShape;

verus! {

/// Normalization gives the month's length, keeps the flags of the days that
/// exist, and changes nothing when applied again.
pub proof fn lemma_normalized(days: Seq<BiDay>, year: int, month: Month)
    requires
        supported_year(year),
    ensures
        normalized(days, year, month).len() == canonical_days(year, month),
        forall|i: int|
            0 <= i < days.len() && i < canonical_days(year, month) ==> normalized(
                days,
                year,
                month,
            )[i] == days[i],
        normalized(normalized(days, year, month), year, month) == normalized(days, year, month),
{
    assert(normalized(normalized(days, year, month), year, month) =~= normalized(
        days,
        year,
        month,
    ));
}

/// Flipping every flag twice gives the calendar back.
pub proof fn lemma_invert_involution(frags: Seq<Fragment<BiDay>>)
    ensures
        inverted(inverted(frags)) == frags,
{
    let twice = inverted(inverted(frags));
    assert forall|i: int| 0 <= i < frags.len() implies twice[i] == frags[i] by {
        assert(twice[i].2 =~= frags[i].2);
    }
    assert(twice =~= frags);
}

/// One year written in the three shapes denotes the same years, and a
/// range denotes the same years as an explicit set exactly when the set
/// holds every year from the start of the range to its end and no other.
pub proof fn lemma_shapes_agree(year: int, start: int, end: int, set: Set<int>)
    ensures
        YearShape::Single(year).years() == YearShape::Range(year, year).years(),
        YearShape::Single(year).years() == YearShape::List(set![year]).years(),
        YearShape::Range(start, end).years() == YearShape::List(set).years() <==> forall|y: int|
            set.contains(y) <==> start <= y <= end,
{
    assert(YearShape::Single(year).years() =~= YearShape::Range(year, year).years());
    if forall|y: int| set.contains(y) <==> start <= y <= end {
        assert(YearShape::Range(start, end).years() =~= set);
    }
    if YearShape::Range(start, end).years() == YearShape::List(set).years() {
        assert forall|y: int| set.contains(y) <==> start <= y <= end by {
            assert(YearShape::Range(start, end).years().contains(y) <==> start <= y <= end);
        }
    }
}

/// Whether fragment `i` is the only fragment of its month.
pub open spec fn alone_in_month(frags: Seq<Fragment<BiDay>>, i: int) -> bool {
    forall|j: int|
        0 <= j < frags.len() && j != i ==> !((#[trigger] frags[j]).0 == frags[i].0 && frags[j].1
            == frags[i].1)
}

/// A month of which a single fragment speaks merges to that fragment's
/// normalized flags, whatever the operator.
pub proof fn lemma_merge_of_one(
    frags: Seq<Fragment<BiDay>>,
    i: int,
    f: spec_fn(BiDay, BiDay) -> BiDay,
)
    requires
        0 <= i < frags.len(),
        alone_in_month(frags, i),
    ensures
        merged_days(frags, frags[i].0, frags[i].1, f) == Some(
            normalized(frags[i].2, frags[i].0 as int, frags[i].1),
        ),
    decreases frags.len(),
{
    let year = frags[i].0;
    let month = frags[i].1;
    let rest = frags.drop_last();
    if i == frags.len() - 1 {
        assert(!has_month(rest, year, month)) by {
            if has_month(rest, year, month) {
                let j = choose|j: int|
                    0 <= j < rest.len() && (#[trigger] rest[j]).0 == year && rest[j].1 == month;
                assert(frags[j] == rest[j]);
            }
        }
        lemma_merged_absent(rest, year, month, f);
    } else {
        assert(rest[i] == frags[i]);
        assert forall|j: int| 0 <= j < rest.len() && j != i implies !((#[trigger] rest[j]).0
            == rest[i].0 && rest[j].1 == rest[i].1) by {
            assert(rest[j] == frags[j]);
        }
        lemma_merge_of_one(rest, i, f);
        assert(!(frags[frags.len() - 1].0 == year && frags[frags.len() - 1].1 == month));
    }
}

/// Merging leaves a month of a supported year of which a single fragment
/// speaks with that fragment's normalized flags, whatever the operator.
pub proof fn lemma_merge_identity(
    out: Seq<Fragment<BiDay>>,
    frags: Seq<Fragment<BiDay>>,
    i: int,
    f: spec_fn(BiDay, BiDay) -> BiDay,
)
    requires
        is_merge(out, frags, f),
        0 <= i < frags.len(),
        supported_year(frags[i].0 as int),
        alone_in_month(frags, i),
    ensures
        out.contains(
            (frags[i].0, frags[i].1, normalized(frags[i].2, frags[i].0 as int, frags[i].1)),
        ),
{
    lemma_merge_of_one(frags, i, f);
    assert(has_month(out, frags[i].0, frags[i].1));
    let k = choose|k: int|
        0 <= k < out.len() && (#[trigger] out[k]).0 == frags[i].0 && out[k].1 == frags[i].1;
    assert(merged_days(frags, out[k].0, out[k].1, f) == Some(out[k].2));
    assert(out[k] == (
        frags[i].0,
        frags[i].1,
        normalized(frags[i].2, frags[i].0 as int, frags[i].1),
    ));
}

/// Merging two fragments of one month of a supported year gives a single
/// fragment: their normalized flags combined position by position.
pub proof fn lemma_merge_of_two(
    out: Seq<Fragment<BiDay>>,
    year: Year,
    month: Month,
    a: Seq<BiDay>,
    b: Seq<BiDay>,
    f: spec_fn(BiDay, BiDay) -> BiDay,
)
    requires
        supported_year(year as int),
        is_merge(out, seq![(year, month, a), (year, month, b)], f),
    ensures
        out == seq![
            (
                year,
                month,
                pointwise(normalized(a, year as int, month), normalized(b, year as int, month), f),
            ),
        ],
{
    let frags = seq![(year, month, a), (year, month, b)];
    let first = frags.drop_last();
    assert(first =~= seq![(year, month, a)]);
    assert(first.drop_last() =~= Seq::<Fragment<BiDay>>::empty());
    assert(merged_days(first.drop_last(), year, month, f) is None);
    assert(merged_days(first, year, month, f) == Some(normalized(a, year as int, month)));
    assert(merged_days(frags, year, month, f) == Some(
        pointwise(normalized(a, year as int, month), normalized(b, year as int, month), f),
    ));
    assert(has_month(out, frags[0].0, frags[0].1));
    assert forall|k: int| 0 <= k < out.len() implies (#[trigger] out[k]).0 == year && out[k].1
        == month by {
        assert(has_month(frags, out[k].0, out[k].1));
        let j = choose|j: int|
            0 <= j < frags.len() && (#[trigger] frags[j]).0 == out[k].0 && frags[j].1 == out[k].1;
    }
    if out.len() > 1 {
        assert(key_of(out[0]) < key_of(out[1]));
    }
    assert(merged_days(frags, out[0].0, out[0].1, f) == Some(out[0].2));
    assert(out =~= seq![
        (
            year,
            month,
            pointwise(normalized(a, year as int, month), normalized(b, year as int, month), f),
        ),
    ]);
}

/// The intersection of two fragments of one month is the intersection,
/// position by position, of their normalized flags.
pub proof fn lemma_and_of_two(
    out: Seq<Fragment<BiDay>>,
    year: Year,
    month: Month,
    a: Seq<BiDay>,
    b: Seq<BiDay>,
)
    requires
        supported_year(year as int),
        is_merge(
            out,
            seq![(year, month, a), (year, month, b)],
            |x: BiDay, y: BiDay| and_flag(x, y),
        ),
    ensures
        out.len() == 1,
        out[0].0 == year && out[0].1 == month,
        out[0].2.len() == canonical_days(year as int, month),
        forall|i: int|
            0 <= i < out[0].2.len() ==> out[0].2[i] == and_flag(
                normalized(a, year as int, month)[i],
                normalized(b, year as int, month)[i],
            ),
{
    lemma_merge_of_two(out, year, month, a, b, |x: BiDay, y: BiDay| and_flag(x, y));
}

/// The union of two fragments of one month is the union, position by
/// position, of their normalized flags.
pub proof fn lemma_or_of_two(
    out: Seq<Fragment<BiDay>>,
    year: Year,
    month: Month,
    a: Seq<BiDay>,
    b: Seq<BiDay>,
)
    requires
        supported_year(year as int),
        is_merge(
            out,
            seq![(year, month, a), (year, month, b)],
            |x: BiDay, y: BiDay| or_flag(x, y),
        ),
    ensures
        out.len() == 1,
        out[0].0 == year && out[0].1 == month,
        out[0].2.len() == canonical_days(year as int, month),
        forall|i: int|
            0 <= i < out[0].2.len() ==> out[0].2[i] == or_flag(
                normalized(a, year as int, month)[i],
                normalized(b, year as int, month)[i],
            ),
{
    lemma_merge_of_two(out, year, month, a, b, |x: BiDay, y: BiDay| or_flag(x, y));
}

/// The dates that a fragment marks: they are of the fragment's month, in
/// ascending order, and a day is among them when it exists and its
/// position holds the flag `One`.
pub proof fn lemma_fragment_dates(year: Year, month: Month, flags: Seq<BiDay>)
    ensures
        forall|k: int|
            0 <= k < fragment_dates(year, month, flags).len() ==> {
                let p = #[trigger] fragment_dates(year, month, flags)[k];
                p.0 == year && p.1 == month && 1 <= p.2 <= flags.len() && flags[p.2 - 1]
                    == BiDay::One && date_exists(year as int, month, p.2)
            },
        forall|a: int, b: int|
            0 <= a < b < fragment_dates(year, month, flags).len() ==> (#[trigger] fragment_dates(
                year,
                month,
                flags,
            )[a]).2 < (#[trigger] fragment_dates(year, month, flags)[b]).2,
        forall|day: int|
            1 <= day <= flags.len() && flags[day - 1] == BiDay::One && date_exists(
                year as int,
                month,
                day,
            ) ==> fragment_dates(year, month, flags).contains((year as int, month, day)),
    decreases flags.len(),
{
    if flags.len() > 0 {
        let rest = flags.drop_last();
        lemma_fragment_dates(year, month, rest);
        let before = fragment_dates(year, month, rest);
        let now = fragment_dates(year, month, flags);
        assert forall|k: int| 0 <= k < now.len() implies {
            let p = #[trigger] now[k];
            p.0 == year && p.1 == month && 1 <= p.2 <= flags.len() && flags[p.2 - 1] == BiDay::One
                && date_exists(year as int, month, p.2)
        } by {
            if k < before.len() {
                let p = before[k];
                assert(now[k] == p);
                assert(rest[p.2 - 1] == flags[p.2 - 1]);
            }
        }
        assert forall|a: int, b: int| 0 <= a < b < now.len() implies (#[trigger] now[a]).2 < (
        #[trigger] now[b]).2 by {
            assert(now[a] == before[a]);
            if b < before.len() {
                assert(now[b] == before[b]);
            }
        }
        assert forall|day: int|
            1 <= day <= flags.len() && flags[day - 1] == BiDay::One && date_exists(
                year as int,
                month,
                day,
            ) implies now.contains((year as int, month, day)) by {
            if day < flags.len() {
                assert(rest[day - 1] == flags[day - 1]);
                assert(before.contains((year as int, month, day)));
                let k = choose|k: int|
                    0 <= k < before.len() && before[k] == (year as int, month, day);
                assert(now[k] == (year as int, month, day));
            } else {
                assert(now[now.len() - 1] == (year as int, month, day));
            }
        }
    }
}

/// The dates that a calendar in ascending order of month marks: they stand
/// in ascending order, and a date is among them when a fragment marks it.
pub proof fn lemma_calendar_dates(frags: Seq<Fragment<BiDay>>)
    requires
        ascending(frags),
    ensures
        ascending_dates(calendar_dates(frags)),
        forall|p: (int, Month, int)|
            calendar_dates(frags).contains(p) <==> exists|i: int|
                0 <= i < frags.len() && fragment_dates(
                    (#[trigger] frags[i]).0,
                    frags[i].1,
                    frags[i].2,
                ).contains(p),
        forall|k: int|
            0 <= k < calendar_dates(frags).len() ==> exists|i: int|
                0 <= i < frags.len() && (#[trigger] frags[i]).0 == (#[trigger] calendar_dates(
                    frags,
                )[k]).0 && frags[i].1 == calendar_dates(frags)[k].1,
    decreases frags.len(),
{
    if frags.len() > 0 {
        let rest = frags.drop_last();
        let last = frags.last();
        assert(frags[frags.len() - 1] == last);
        assert(ascending(rest)) by {
            assert forall|i: int, j: int| 0 <= i < j < rest.len() implies key_of(
                #[trigger] rest[i],
            ) < key_of(#[trigger] rest[j]) by {
                assert(rest[i] == frags[i] && rest[j] == frags[j]);
            }
        }
        lemma_calendar_dates(rest);
        lemma_fragment_dates(last.0, last.1, last.2);
        let head = calendar_dates(rest);
        let tail = fragment_dates(last.0, last.1, last.2);
        let all = calendar_dates(frags);
        assert(all == head + tail);
        assert forall|k: int| 0 <= k < all.len() implies exists|i: int|
            0 <= i < frags.len() && (#[trigger] frags[i]).0 == (#[trigger] all[k]).0 && frags[i].1
                == all[k].1 by {
            if k < head.len() {
                assert(all[k] == head[k]);
                let i = choose|i: int|
                    0 <= i < rest.len() && (#[trigger] rest[i]).0 == head[k].0 && rest[i].1
                        == head[k].1;
                assert(frags[i] == rest[i]);
            } else {
                assert(all[k] == tail[k - head.len()]);
                assert(frags[frags.len() - 1].0 == all[k].0);
            }
        }
        assert forall|a: int, b: int| 0 <= a < b < all.len() implies position_of(
            #[trigger] all[a],
        ) < position_of(#[trigger] all[b]) by {
            if b < head.len() {
                assert(all[a] == head[a] && all[b] == head[b]);
            } else if a >= head.len() {
                assert(all[a] == tail[a - head.len()] && all[b] == tail[b - head.len()]);
                assert(tail[a - head.len()].2 < tail[b - head.len()].2);
            } else {
                assert(all[a] == head[a] && all[b] == tail[b - head.len()]);
                let i = choose|i: int|
                    0 <= i < rest.len() && (#[trigger] rest[i]).0 == head[a].0 && rest[i].1
                        == head[a].1;
                assert(frags[i] == rest[i]);
                assert(key_of(frags[i]) < key_of(frags[frags.len() - 1]));
                lemma_head_dates_exist(rest, a);
                lemma_month_length_bounds(head[a].0, head[a].1);
                let q = tail[b - head.len()];
                assert(q.2 >= 1);
            }
        }
        assert forall|p: (int, Month, int)|
            all.contains(p) <==> exists|i: int|
                0 <= i < frags.len() && fragment_dates(
                    (#[trigger] frags[i]).0,
                    frags[i].1,
                    frags[i].2,
                ).contains(p) by {
            if all.contains(p) {
                let k = choose|k: int| 0 <= k < all.len() && all[k] == p;
                if k < head.len() {
                    assert(head[k] == p);
                    assert(head.contains(p));
                    let i = choose|i: int|
                        0 <= i < rest.len() && fragment_dates(
                            (#[trigger] rest[i]).0,
                            rest[i].1,
                            rest[i].2,
                        ).contains(p);
                    assert(frags[i] == rest[i]);
                } else {
                    assert(tail[k - head.len()] == p);
                    assert(tail.contains(p));
                    assert(fragment_dates(
                        frags[frags.len() - 1].0,
                        frags[frags.len() - 1].1,
                        frags[frags.len() - 1].2,
                    ).contains(p));
                }
            }
            if exists|i: int|
                0 <= i < frags.len() && fragment_dates(
                    (#[trigger] frags[i]).0,
                    frags[i].1,
                    frags[i].2,
                ).contains(p) {
                let i = choose|i: int|
                    0 <= i < frags.len() && fragment_dates(
                        (#[trigger] frags[i]).0,
                        frags[i].1,
                        frags[i].2,
                    ).contains(p);
                if i < rest.len() {
                    assert(rest[i] == frags[i]);
                    assert(head.contains(p));
                    let k = choose|k: int| 0 <= k < head.len() && head[k] == p;
                    assert(all[k] == p);
                } else {
                    let k = choose|k: int| 0 <= k < tail.len() && tail[k] == p;
                    assert(all[head.len() + k] == p);
                }
            }
        }
    }
}

/// Every date that a calendar marks exists.
pub proof fn lemma_head_dates_exist(frags: Seq<Fragment<BiDay>>, k: int)
    requires
        0 <= k < calendar_dates(frags).len(),
    ensures
        date_exists(
            calendar_dates(frags)[k].0,
            calendar_dates(frags)[k].1,
            calendar_dates(frags)[k].2,
        ),
    decreases frags.len(),
{
    if frags.len() > 0 {
        let rest = frags.drop_last();
        let last = frags.last();
        let head = calendar_dates(rest);
        let tail = fragment_dates(last.0, last.1, last.2);
        if k < head.len() {
            lemma_head_dates_exist(rest, k);
            assert((head + tail)[k] == head[k]);
        } else {
            lemma_fragment_dates(last.0, last.1, last.2);
            assert((head + tail)[k] == tail[k - head.len()]);
        }
    }
}

/// A round trip gives the dates back. Take dates of the years 1 to 9999
/// in ascending order, none of them twice; make the calendar of day
/// numbers of these dates, turn it into a calendar of flags, and read the
/// dates that this calendar marks: they are the dates taken.
pub proof fn lemma_dates_round_trip(dates: Seq<Date>, numbered: Seq<Fragment<Day>>)
    requires
        forall|j: int|
            0 <= j < dates.len() ==> (#[trigger] dates[j]).well_formed() && supported_year(
                dates[j]@.0,
            ),
        ascending_dates(parts_of(dates)),
        is_calendar_of(numbered, parts_of(dates)),
    ensures
        all_days_fit(numbered),
        ascending(as_flags(numbered)),
        calendar_dates(as_flags(numbered)) == parts_of(dates),
{
    let given = parts_of(dates);
    let flags = as_flags(numbered);
    assert forall|i: int, k: int|
        0 <= i < numbered.len() && 0 <= k < numbered[i].2.len() implies 1 <= (
        #[trigger] numbered[i].2[k]) <= canonical_days(numbered[i].0 as int, numbered[i].1)
        && supported_year(numbered[i].0 as int) by {
        let p = marked_at(numbered, i, k);
        assert(marks(numbered, p));
        assert(given.contains(p));
        let j = choose|j: int| 0 <= j < given.len() && given[j] == p;
        assert(dates[j]@ == p);
        assert(dates[j].well_formed());
    }
    assert(all_days_fit(numbered));
    assert forall|i: int, j: int| 0 <= i < j < flags.len() implies key_of(#[trigger] flags[i])
        < key_of(#[trigger] flags[j]) by {
        assert(key_of(numbered[i]) < key_of(numbered[j]));
    }
    lemma_calendar_dates(flags);
    let read = calendar_dates(flags);
    assert forall|p: (int, Month, int)| read.contains(p) <==> given.contains(p) by {
        if read.contains(p) {
            let i = choose|i: int|
                0 <= i < flags.len() && fragment_dates(
                    (#[trigger] flags[i]).0,
                    flags[i].1,
                    flags[i].2,
                ).contains(p);
            lemma_fragment_dates(flags[i].0, flags[i].1, flags[i].2);
            let fd = fragment_dates(flags[i].0, flags[i].1, flags[i].2);
            let k = choose|k: int| 0 <= k < fd.len() && fd[k] == p;
            let q = fd[k];
            assert(flags[i].2[q.2 - 1] == BiDay::One);
            assert(numbered[i].2.contains(q.2 as Day));
            let d = choose|d: int| 0 <= d < numbered[i].2.len() && numbered[i].2[d] == q.2 as Day;
            assert(marked_at(numbered, i, d) == p);
            assert(marks(numbered, p));
        }
        if given.contains(p) {
            assert(marks(numbered, p));
            let (i, k) = choose|i: int, k: int|
                0 <= i < numbered.len() && 0 <= k < numbered[i].2.len() && #[trigger] marked_at(
                    numbered,
                    i,
                    k,
                ) == p;
            let day = numbered[i].2[k];
            assert(1 <= day <= canonical_days(numbered[i].0 as int, numbered[i].1));
            assert(numbered[i].2.contains(day));
            assert(((day - 1) + 1) as Day == day);
            assert(flags[i].2[day - 1] == BiDay::One);
            lemma_fragment_dates(flags[i].0, flags[i].1, flags[i].2);
            assert(fragment_dates(flags[i].0, flags[i].1, flags[i].2).contains(p));
        }
    }
    lemma_ascending_dates_determined(read, given);
}

} // verus!
