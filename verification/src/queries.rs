//! Read-only questions to a calendar: the years and months of which it
//! speaks, the fragments of a year, and the fragment of a month.

use vstd::prelude::*;
use crate::calendar::{
    copy_items, first_of_month, has_month, lemma_first_of_month, lemma_month_key_injective,
    month_key, DaysCalendar, Fragment,
};
use crate::keys::{ascending_keys, insert_key, key_set};
use crate::order::{entry_key, sorted_by_month};
use crate::ranges::{ascending_pairs, holds_pair, pairs_of_keys};
use crate::span::lemma_pairs_hold;
use crate::types::{Month, Year};

verus! {

/// Whether a later fragment speaks of the month of fragment `i`.
pub open spec fn overridden<T>(frags: Seq<Fragment<T>>, i: int) -> bool {
    exists|j: int|
        i < j < frags.len() && (#[trigger] frags[j]).0 == frags[i].0 && frags[j].1 == frags[i].1
}

/// The months of a year with their items, taken from the first `n`
/// fragments in order: a fragment counts when it is of the year and no
/// later fragment of the calendar speaks of its month.
pub open spec fn year_entries<T>(frags: Seq<Fragment<T>>, year: Year, n: int) -> Seq<
    ((Year, Month), Seq<T>),
>
    decreases n,
{
    if n <= 0 {
        Seq::empty()
    } else {
        let before = year_entries(frags, year, n - 1);
        let x = frags[n - 1];
        if x.0 == year && !overridden(frags, n - 1) {
            before.push(((x.0, x.1), x.2))
        } else {
            before
        }
    }
}

/// The entries of a vector of entries, each with its items as a sequence.
pub open spec fn entries_of<T>(v: Seq<((Year, Month), Vec<T>)>) -> Seq<((Year, Month), Seq<T>)> {
    Seq::new(v.len(), |i: int| (v[i].0, v[i].1@))
}

/// Returns the months of year `y` with their items. Where several
/// fragments speak of one month, the last of them counts. The entries come
/// in the order in which the calendar holds the fragments that count.
pub fn query_year_consolidate<T>(y: Year, dc: &DaysCalendar<T>) -> (r: Vec<
    ((Year, Month), Vec<T>),
>) where T: Copy
    ensures
        entries_of(r@) == year_entries(dc@, y, dc@.len() as int),
{
    let mut out: Vec<((Year, Month), Vec<T>)> = Vec::new();
    let n = dc.days_calendar.len();
    let mut i: usize = 0;
    assert(entries_of(out@) =~= year_entries(dc@, y, 0));
    while i < n
        invariant
            n == dc.days_calendar@.len(),
            i <= n,
            entries_of(out@) == year_entries(dc@, y, i as int),
        decreases n - i,
    {
        let frag = &dc.days_calendar[i];
        assert(dc@[i as int] == (frag.0, frag.1, frag.2@));
        if frag.0 == y {
            let mut later = false;
            let mut j: usize = i + 1;
            while j < n && !later
                invariant
                    n == dc.days_calendar@.len(),
                    i < j <= n,
                    dc@[i as int] == (frag.0, frag.1, frag.2@),
                    later ==> overridden(dc@, i as int),
                    !later ==> forall|k: int|
                        i < k < j ==> !((#[trigger] dc@[k]).0 == frag.0 && dc@[k].1 == frag.1),
                decreases n - j + if later { 0int } else { 1int },
            {
                let other = &dc.days_calendar[j];
                assert(dc@[j as int] == (other.0, other.1, other.2@));
                if other.0 == frag.0 && other.1 == frag.1 {
                    later = true;
                } else {
                    j += 1;
                }
            }
            if !later {
                let ghost before = out@;
                out.push(((frag.0, frag.1), copy_items(&frag.2)));
                assert(entries_of(out@) =~= entries_of(before).push(((frag.0, frag.1), frag.2@)));
            }
        }
        i += 1;
    }
    out
}

/// Years in strictly ascending order.
pub open spec fn ascending_years(years: Seq<Year>) -> bool {
    forall|a: int, b: int| 0 <= a < b < years.len() ==> years[a] < years[b]
}

/// Whether some fragment is of the year.
pub open spec fn has_year<T>(frags: Seq<Fragment<T>>, year: Year) -> bool {
    exists|i: int| 0 <= i < frags.len() && (#[trigger] frags[i]).0 == year
}

/// Returns the years of which the calendar speaks, in ascending order and
/// each once.
pub fn extract_years_calendar<T>(dc: &DaysCalendar<T>) -> (r: Vec<Year>) where T: Clone
    ensures
        ascending_years(r@),
        forall|y: Year| r@.contains(y) <==> has_year(dc@, y),
{
    let mut keys: Vec<u32> = Vec::new();
    let n = dc.days_calendar.len();
    let mut i: usize = 0;
    while i < n
        invariant
            n == dc.days_calendar@.len(),
            i <= n,
            ascending_keys(keys@),
            forall|k: int|
                key_set(keys@).contains(k) <==> exists|j: int|
                    0 <= j < i && (#[trigger] dc@[j]).0 == k,
        decreases n - i,
    {
        let ghost before = key_set(keys@);
        let year = dc.days_calendar[i].0;
        assert(dc@[i as int].0 == year);
        insert_key(&mut keys, year as u32);
        assert forall|k: int|
            key_set(keys@).contains(k) <==> exists|j: int|
                0 <= j < i + 1 && (#[trigger] dc@[j]).0 == k by {
            if exists|j: int| 0 <= j < i + 1 && (#[trigger] dc@[j]).0 == k {
                let j = choose|j: int| 0 <= j < i + 1 && (#[trigger] dc@[j]).0 == k;
                if j < i {
                    assert(before.contains(k));
                }
            }
            if key_set(keys@).contains(k) && !before.contains(k) {
                assert(dc@[i as int].0 == k);
            }
        }
        i += 1;
    }
    let mut years: Vec<Year> = Vec::with_capacity(keys.len());
    let mut k: usize = 0;
    while k < keys.len()
        invariant
            k <= keys@.len(),
            years@.len() == k,
            forall|v: int| key_set(keys@).contains(v) ==> 0 <= v <= u16::MAX,
            forall|j: int| 0 <= j < k ==> years@[j] == keys@[j],
        decreases keys@.len() - k,
    {
        assert(key_set(keys@).contains(keys@[k as int] as int));
        years.push(keys[k] as Year);
        k += 1;
    }
    proof {
        assert forall|a: int, b: int| 0 <= a < b < years@.len() implies years@[a] < years@[b] by {
            assert(keys@[a] < keys@[b]);
        }
        assert forall|y: Year| years@.contains(y) <==> has_year(dc@, y) by {
            if years@.contains(y) {
                let j = choose|j: int| 0 <= j < years@.len() && years@[j] == y;
                assert(keys@[j] == y);
                assert(key_set(keys@).contains(y as int));
            }
            if has_year(dc@, y) {
                assert(key_set(keys@).contains(y as int));
                let j = choose|j: int| 0 <= j < keys@.len() && #[trigger] keys@[j] == y as int;
                assert(years@[j] == y);
            }
        }
    }
    years
}

/// Returns the months of which the calendar speaks, in ascending order and
/// each once.
pub fn extract_year_month_calendar<T: Clone>(dc: &DaysCalendar<T>) -> (r: Vec<(Year, Month)>)
    ensures
        ascending_pairs(r@),
        forall|y: Year, m: Month| holds_pair(r@, y as int, m) <==> has_month(dc@, y, m),
{
    let mut keys: Vec<u32> = Vec::new();
    let n = dc.days_calendar.len();
    let mut i: usize = 0;
    while i < n
        invariant
            n == dc.days_calendar@.len(),
            i <= n,
            ascending_keys(keys@),
            forall|k: int|
                key_set(keys@).contains(k) <==> exists|j: int|
                    0 <= j < i && entry_key(#[trigger] dc@[j]) == k,
        decreases n - i,
    {
        let ghost before = key_set(keys@);
        let frag = &dc.days_calendar[i];
        assert(dc@[i as int] == (frag.0, frag.1, frag.2@));
        let key: u32 = frag.0 as u32 * 12 + frag.1.to_index() as u32 - 1;
        insert_key(&mut keys, key);
        assert forall|k: int|
            key_set(keys@).contains(k) <==> exists|j: int|
                0 <= j < i + 1 && entry_key(#[trigger] dc@[j]) == k by {
            if exists|j: int| 0 <= j < i + 1 && entry_key(#[trigger] dc@[j]) == k {
                let j = choose|j: int| 0 <= j < i + 1 && entry_key(#[trigger] dc@[j]) == k;
                if j < i {
                    assert(before.contains(k));
                }
            }
            if key_set(keys@).contains(k) && !before.contains(k) {
                assert(entry_key(dc@[i as int]) == k);
            }
        }
        i += 1;
    }
    assert forall|i: int| 0 <= i < keys@.len() implies #[trigger] keys@[i] < 65536 * 12 by {
        assert(key_set(keys@).contains(keys@[i] as int));
    }
    let r = pairs_of_keys(&keys);
    proof {
        lemma_pairs_hold(keys@, r@);
        assert forall|y: Year, m: Month| holds_pair(r@, y as int, m) <==> has_month(dc@, y, m) by {
            assert(holds_pair(r@, y as int, m) <==> key_set(keys@).contains(
                month_key(y as int, m),
            ));
            if key_set(keys@).contains(month_key(y as int, m)) {
                let j = choose|j: int|
                    0 <= j < dc@.len() && entry_key(#[trigger] dc@[j]) == month_key(y as int, m);
                lemma_month_key_injective(dc@[j].0 as int, dc@[j].1, y as int, m);
            }
            if has_month(dc@, y, m) {
                let j = choose|j: int|
                    0 <= j < dc@.len() && (#[trigger] dc@[j]).0 == y && dc@[j].1 == m;
                assert(entry_key(dc@[j]) == month_key(y as int, m));
            }
        }
    }
    r
}

/// Returns the items of the first fragment of the given month, found by
/// binary search in a calendar whose fragments stand in ascending order of
/// month, as they do after a merge; `None` when no fragment speaks of the
/// month.
pub fn extract_day_month_calendar<T: Copy>(year: Year, month: Month, dc: &DaysCalendar<T>) -> (r:
    Option<Vec<T>>)
    requires
        sorted_by_month(dc@),
    ensures
        r is None <==> !has_month(dc@, year, month),
        r matches Some(items) ==> items@ == dc@[first_of_month(dc@, year, month)].2,
{
    let target: u32 = year as u32 * 12 + month.to_index() as u32;
    let mut lo: usize = 0;
    let mut hi: usize = dc.days_calendar.len();
    while lo < hi
        invariant
            lo <= hi <= dc.days_calendar@.len(),
            sorted_by_month(dc@),
            target == month_key(year as int, month) + 1,
            forall|i: int| 0 <= i < lo ==> entry_key(#[trigger] dc@[i]) < month_key(year as int, month),
            forall|i: int|
                hi <= i < dc@.len() ==> entry_key(#[trigger] dc@[i]) >= month_key(
                    year as int,
                    month,
                ),
        decreases hi - lo,
    {
        let mid = lo + (hi - lo) / 2;
        let frag = &dc.days_calendar[mid];
        assert(dc@[mid as int] == (frag.0, frag.1, frag.2@));
        if (frag.0 as u32 * 12 + frag.1.to_index() as u32) < target {
            assert forall|i: int| 0 <= i < mid + 1 implies entry_key(#[trigger] dc@[i])
                < month_key(year as int, month) by {
                if i < mid {
                    assert(entry_key(dc@[i]) <= entry_key(dc@[mid as int]));
                }
            }
            lo = mid + 1;
        } else {
            assert forall|i: int| mid <= i < dc@.len() implies entry_key(#[trigger] dc@[i])
                >= month_key(year as int, month) by {
                if i > mid {
                    assert(entry_key(dc@[mid as int]) <= entry_key(dc@[i]));
                }
            }
            hi = mid;
        }
    }
    if lo < dc.days_calendar.len() {
        let frag = &dc.days_calendar[lo];
        assert(dc@[lo as int] == (frag.0, frag.1, frag.2@));
        if frag.0 == year && frag.1 == month {
            proof {
                assert forall|j: int| 0 <= j < lo implies !((#[trigger] dc@[j]).0 == year
                    && dc@[j].1 == month) by {
                    assert(entry_key(dc@[j]) < month_key(year as int, month));
                }
                lemma_first_of_month(dc@, year, month, lo as int);
            }
            return Some(copy_items(&frag.2));
        }
    }
    proof {
        if has_month(dc@, year, month) {
            let i = choose|i: int|
                0 <= i < dc@.len() && (#[trigger] dc@[i]).0 == year && dc@[i].1 == month;
            assert(entry_key(dc@[i]) == month_key(year as int, month));
            if i > lo {
                assert(entry_key(dc@[lo as int]) <= entry_key(dc@[i]));
                lemma_month_key_injective(
                    dc@[lo as int].0 as int,
                    dc@[lo as int].1,
                    year as int,
                    month,
                );
            }
        }
    }
    None
}

} // verus!
