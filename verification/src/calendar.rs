//! The calendar container and its algebra: concatenation, the merge of
//! fragments that share a month, the boolean combinators built on it,
//! pattern replication, inversion and truncation.

use vstd::prelude::*;
use crate::binary::{
    and_biday_operation, and_flag, combined_by, computes, match_biday_operation, match_flag,
    minus_biday_operation, minus_flag, nomatch_biday_operation, nomatch_flag, normalize_biday,
    normalized, or_biday_operation, or_flag, pointwise, replicate_pattern, tiled,
};
use crate::types::{BiDay, Month, Year};
use crate::utils::{canonical_days, days_in_month, generate_vec_days, supported_year};

verus! {

/// An ordered collection of fragments. A fragment is a year, a month and a
/// vector of items for the days of that month; several fragments may speak
/// of the same month, and a vector need not have the month's length, until
/// the calendar is merged.
#[derive(Debug, Clone, PartialEq, Eq)]
pub struct DaysCalendar<T> {
    pub days_calendar: Vec<(Year, Month, Vec<T>)>,
}

/// The mathematical content of a fragment.
pub type Fragment<T> = (Year, Month, Seq<T>);

impl<T> View for DaysCalendar<T> {
    type V = Seq<Fragment<T>>;

    open spec fn view(&self) -> Seq<Fragment<T>> {
        fragments_of(self.days_calendar@)
    }
}

/// The fragments of a vector of fragments, each with its items as a sequence.
pub open spec fn fragments_of<T>(v: Seq<(Year, Month, Vec<T>)>) -> Seq<Fragment<T>> {
    Seq::new(v.len(), |i: int| (v[i].0, v[i].1, v[i].2@))
}

/// The position of a month on the time line, counted in months.
pub open spec fn month_key(year: int, month: Month) -> int {
    year * 12 + month.index() - 1
}

/// The position on the time line of the month that a fragment speaks of.
pub open spec fn key_of<T>(f: Fragment<T>) -> int {
    month_key(f.0 as int, f.1)
}

/// Whether some fragment speaks of the given month.
pub open spec fn has_month<T>(frags: Seq<Fragment<T>>, year: Year, month: Month) -> bool {
    exists|i: int| 0 <= i < frags.len() && (#[trigger] frags[i]).0 == year && frags[i].1 == month
}

/// Fragments in strictly ascending order of month: sorted, and at most one
/// fragment for each month.
pub open spec fn ascending<T>(frags: Seq<Fragment<T>>) -> bool {
    forall|i: int, j: int|
        0 <= i < j < frags.len() ==> key_of(#[trigger] frags[i]) < key_of(#[trigger] frags[j])
}

/// The state that a merge establishes: strictly ascending months, each in a
/// supported year and with exactly one flag for each of its days.
pub open spec fn canonical(frags: Seq<Fragment<BiDay>>) -> bool {
    &&& ascending(frags)
    &&& forall|i: int|
        0 <= i < frags.len() ==> supported_year((#[trigger] frags[i]).0 as int) && frags[i].2.len()
            == canonical_days(frags[i].0 as int, frags[i].1)
}

/// What the fragments of one month amount to when they are merged with `f`
/// in the order in which they stand: the first one normalized, then each
/// further one normalized and combined with what was held so far. `None`
/// when no fragment speaks of the month.
pub open spec fn merged_days(
    frags: Seq<Fragment<BiDay>>,
    year: Year,
    month: Month,
    f: spec_fn(BiDay, BiDay) -> BiDay,
) -> Option<Seq<BiDay>>
    decreases frags.len(),
{
    if frags.len() == 0 {
        None
    } else {
        let before = merged_days(frags.drop_last(), year, month, f);
        let last = frags.last();
        if last.0 == year && last.1 == month {
            match before {
                None => Some(normalized(last.2, year as int, month)),
                Some(held) => Some(pointwise(held, normalized(last.2, year as int, month), f)),
            }
        } else {
            before
        }
    }
}

/// Whether `out` is what the executable operator makes of the fragments of
/// one month: the normalized flags of the first of them, combined with the
/// normalized flags of each further one in the order in which they stand.
pub open spec fn merged_by<F: Fn(BiDay, BiDay) -> BiDay>(
    frags: Seq<Fragment<BiDay>>,
    year: Year,
    month: Month,
    op: F,
    out: Seq<BiDay>,
) -> bool
    decreases frags.len(),
{
    if frags.len() == 0 {
        false
    } else {
        let before = frags.drop_last();
        let last = frags.last();
        if last.0 == year && last.1 == month {
            if has_month(before, year, month) {
                exists|held: Seq<BiDay>|
                    #![trigger merged_by(before, year, month, op, held)]
                    merged_by(before, year, month, op, held) && combined_by(
                        op,
                        held,
                        normalized(last.2, year as int, month),
                        out,
                    )
            } else {
                out == normalized(last.2, year as int, month)
            }
        } else {
            merged_by(before, year, month, op, out)
        }
    }
}

/// The flags of a merge made by an executable operator: each fragment of
/// `out` holds what the operator makes of the fragments of its month in
/// `frags`.
pub open spec fn merge_made_by<F: Fn(BiDay, BiDay) -> BiDay>(
    out: Seq<Fragment<BiDay>>,
    frags: Seq<Fragment<BiDay>>,
    op: F,
) -> bool {
    forall|i: int|
        0 <= i < out.len() ==> merged_by(frags, (#[trigger] out[i]).0, out[i].1, op, out[i].2)
}

/// The months of a merge: `out` is canonical and holds one fragment for
/// each month of a supported year that `frags` speaks of, and no other.
pub open spec fn merge_months(out: Seq<Fragment<BiDay>>, frags: Seq<Fragment<BiDay>>) -> bool {
    &&& canonical(out)
    &&& forall|i: int| 0 <= i < out.len() ==> has_month(frags, (#[trigger] out[i]).0, out[i].1)
    &&& forall|j: int|
        0 <= j < frags.len() && supported_year((#[trigger] frags[j]).0 as int) ==> has_month(
            out,
            frags[j].0,
            frags[j].1,
        )
}

/// The flags of a merge: each fragment of `out` holds what the fragments of
/// its month in `frags` amount to under `f`.
pub open spec fn merge_flags(
    out: Seq<Fragment<BiDay>>,
    frags: Seq<Fragment<BiDay>>,
    f: spec_fn(BiDay, BiDay) -> BiDay,
) -> bool {
    forall|i: int|
        0 <= i < out.len() ==> merged_days(frags, (#[trigger] out[i]).0, out[i].1, f) == Some(
            out[i].2,
        )
}

/// `out` is the merge of `frags` under `f`.
pub open spec fn is_merge(
    out: Seq<Fragment<BiDay>>,
    frags: Seq<Fragment<BiDay>>,
    f: spec_fn(BiDay, BiDay) -> BiDay,
) -> bool {
    merge_months(out, frags) && merge_flags(out, frags, f)
}

/// Returns a copy of a vector of copyable items.
pub fn copy_items<T: Copy>(items: &Vec<T>) -> (r: Vec<T>)
    ensures
        r@ == items@,
{
    let mut out: Vec<T> = Vec::with_capacity(items.len());
    let mut i: usize = 0;
    while i < items.len()
        invariant
            i <= items@.len(),
            out@ == items@.subrange(0, i as int),
        decreases items@.len() - i,
    {
        out.push(items[i]);
        i += 1;
        assert(out@ =~= items@.subrange(0, i as int));
    }
    assert(items@.subrange(0, items@.len() as int) =~= items@);
    out
}

/// Two months at the same position on the time line are the same month.
pub proof fn lemma_month_key_injective(y1: int, m1: Month, y2: int, m2: Month)
    requires
        month_key(y1, m1) == month_key(y2, m2),
    ensures
        y1 == y2,
        m1 == m2,
{
}

/// A month of which no fragment speaks merges to nothing.
pub proof fn lemma_merged_absent(
    frags: Seq<Fragment<BiDay>>,
    year: Year,
    month: Month,
    f: spec_fn(BiDay, BiDay) -> BiDay,
)
    requires
        !has_month(frags, year, month),
    ensures
        merged_days(frags, year, month, f) is None,
    decreases frags.len(),
{
    if frags.len() > 0 {
        let shorter = frags.drop_last();
        assert(frags[frags.len() - 1] == frags.last());
        assert forall|i: int| 0 <= i < shorter.len() implies !((#[trigger] shorter[i]).0 == year
            && shorter[i].1 == month) by {
            assert(shorter[i] == frags[i]);
        }
        lemma_merged_absent(shorter, year, month, f);
    }
}

/// Combines two flag vectors of equal length with an operator that is
/// borrowed, so that the caller can use the operator again.
fn combine_with<F>(a: &Vec<BiDay>, b: &Vec<BiDay>, op: &F) -> (r: Vec<BiDay>) where
    F: Fn(BiDay, BiDay) -> BiDay,

    requires
        a@.len() == b@.len(),
        forall|x: BiDay, y: BiDay| #[trigger] call_requires(*op, (x, y)),
    ensures
        combined_by(*op, a@, b@, r@),
        forall|f: spec_fn(BiDay, BiDay) -> BiDay| #[trigger]
            computes(*op, f) ==> r@ == pointwise(a@, b@, f),
{
    let n = a.len();
    let mut result: Vec<BiDay> = Vec::with_capacity(n);
    let mut i: usize = 0;
    while i < n
        invariant
            n == a@.len(),
            a@.len() == b@.len(),
            i <= n,
            result@.len() == i,
            forall|x: BiDay, y: BiDay| #[trigger] call_requires(*op, (x, y)),
            forall|j: int| 0 <= j < i ==> call_ensures(*op, (a@[j], b@[j]), #[trigger] result@[j]),
        decreases n - i,
    {
        let x = op(a[i], b[i]);
        result.push(x);
        i += 1;
    }
    assert forall|f: spec_fn(BiDay, BiDay) -> BiDay| #[trigger]
        computes(*op, f) implies result@ == pointwise(a@, b@, f) by {
        assert(result@ =~= pointwise(a@, b@, f));
    }
    result
}

/// Months known of a calendar stay known when a fragment is added to it.
proof fn lemma_has_month_push(seen: Seq<Fragment<BiDay>>, x: Fragment<BiDay>)
    ensures
        has_month(seen.push(x), x.0, x.1),
        forall|y: Year, m: Month| has_month(seen, y, m) ==> has_month(seen.push(x), y, m),
        forall|y: Year, m: Month|
            has_month(seen.push(x), y, m) ==> has_month(seen, y, m) || (y == x.0 && m == x.1),
{
    let now = seen.push(x);
    assert(now[seen.len() as int] == x);
    assert forall|y: Year, m: Month| has_month(seen, y, m) implies has_month(now, y, m) by {
        let i = choose|i: int| 0 <= i < seen.len() && (#[trigger] seen[i]).0 == y && seen[i].1 == m;
        assert(now[i] == seen[i]);
    }
    assert forall|y: Year, m: Month| has_month(now, y, m) implies has_month(seen, y, m) || (y
        == x.0 && m == x.1) by {
        let i = choose|i: int| 0 <= i < now.len() && (#[trigger] now[i]).0 == y && now[i].1 == m;
        if i < seen.len() {
            assert(seen[i] == now[i]);
        }
    }
}

/// What a month merges to after one more fragment, in terms of what it
/// merged to before.
proof fn lemma_merged_push(
    seen: Seq<Fragment<BiDay>>,
    x: Fragment<BiDay>,
    year: Year,
    month: Month,
    f: spec_fn(BiDay, BiDay) -> BiDay,
)
    ensures
        !(x.0 == year && x.1 == month) ==> merged_days(seen.push(x), year, month, f)
            == merged_days(seen, year, month, f),
        x.0 == year && x.1 == month ==> merged_days(seen.push(x), year, month, f) == (match merged_days(
            seen,
            year,
            month,
            f,
        ) {
            None => Some(normalized(x.2, year as int, month)),
            Some(held) => Some(pointwise(held, normalized(x.2, year as int, month), f)),
        }),
{
    let now = seen.push(x);
    assert(now.drop_last() =~= seen);
    assert(now.last() == x);
}

/// A fragment of an unsupported year changes nothing of a merge.
proof fn lemma_merge_skip_months(
    held: Seq<Fragment<BiDay>>,
    seen: Seq<Fragment<BiDay>>,
    x: Fragment<BiDay>,
)
    requires
        merge_months(held, seen),
        !supported_year(x.0 as int),
    ensures
        merge_months(held, seen.push(x)),
{
    let now = seen.push(x);
    lemma_has_month_push(seen, x);
    assert forall|j: int|
        0 <= j < now.len() && supported_year((#[trigger] now[j]).0 as int) implies has_month(
        held,
        now[j].0,
        now[j].1,
    ) by {
        assert(now[j] == seen[j]);
    }
}

/// A fragment of an unsupported year changes nothing of the flags of a
/// merge.
proof fn lemma_merge_skip_flags(
    held: Seq<Fragment<BiDay>>,
    seen: Seq<Fragment<BiDay>>,
    x: Fragment<BiDay>,
    f: spec_fn(BiDay, BiDay) -> BiDay,
)
    requires
        merge_months(held, seen),
        merge_flags(held, seen, f),
        !supported_year(x.0 as int),
    ensures
        merge_flags(held, seen.push(x), f),
{
    assert forall|i: int| 0 <= i < held.len() implies merged_days(
        seen.push(x),
        (#[trigger] held[i]).0,
        held[i].1,
        f,
    ) == Some(held[i].2) by {
        lemma_merged_push(seen, x, held[i].0, held[i].1, f);
    }
}

/// A further fragment of a month that the merge already holds replaces the
/// flags held for that month.
proof fn lemma_merge_update_months(
    held: Seq<Fragment<BiDay>>,
    seen: Seq<Fragment<BiDay>>,
    x: Fragment<BiDay>,
    pos: int,
    combined: Seq<BiDay>,
)
    requires
        merge_months(held, seen),
        0 <= pos < held.len(),
        held[pos].0 == x.0,
        held[pos].1 == x.1,
        combined.len() == held[pos].2.len(),
    ensures
        merge_months(held.update(pos, (x.0, x.1, combined)), seen.push(x)),
{
    let now = seen.push(x);
    let out = held.update(pos, (x.0, x.1, combined));
    lemma_has_month_push(seen, x);
    assert forall|i: int, j: int| 0 <= i < j < out.len() implies key_of(#[trigger] out[i])
        < key_of(#[trigger] out[j]) by {
        assert(key_of(out[i]) == key_of(held[i]));
        assert(key_of(out[j]) == key_of(held[j]));
    }
    assert forall|i: int| 0 <= i < out.len() implies has_month(now, (#[trigger] out[i]).0, out[i].1)
        && supported_year(out[i].0 as int) && out[i].2.len() == canonical_days(
        out[i].0 as int,
        out[i].1,
    ) by {
        assert(out[i].0 == held[i].0 && out[i].1 == held[i].1);
    }
    assert forall|j: int|
        0 <= j < now.len() && supported_year((#[trigger] now[j]).0 as int) implies has_month(
        out,
        now[j].0,
        now[j].1,
    ) by {
        if j < seen.len() {
            assert(seen[j] == now[j]);
            let i = choose|i: int|
                0 <= i < held.len() && (#[trigger] held[i]).0 == now[j].0 && held[i].1
                    == now[j].1;
            assert(out[i].0 == held[i].0 && out[i].1 == held[i].1);
        } else {
            assert(out[pos].0 == x.0 && out[pos].1 == x.1);
        }
    }
}

/// A further fragment of a month is combined with the flags held for that
/// month, and leaves the other months as they are.
proof fn lemma_merge_update_flags(
    held: Seq<Fragment<BiDay>>,
    seen: Seq<Fragment<BiDay>>,
    x: Fragment<BiDay>,
    pos: int,
    combined: Seq<BiDay>,
    f: spec_fn(BiDay, BiDay) -> BiDay,
)
    requires
        merge_months(held, seen),
        merge_flags(held, seen, f),
        0 <= pos < held.len(),
        held[pos].0 == x.0,
        held[pos].1 == x.1,
        combined == pointwise(held[pos].2, normalized(x.2, x.0 as int, x.1), f),
    ensures
        merge_flags(held.update(pos, (x.0, x.1, combined)), seen.push(x), f),
{
    let out = held.update(pos, (x.0, x.1, combined));
    assert forall|i: int| 0 <= i < out.len() implies merged_days(
        seen.push(x),
        (#[trigger] out[i]).0,
        out[i].1,
        f,
    ) == Some(out[i].2) by {
        lemma_merged_push(seen, x, held[i].0, held[i].1, f);
        assert(merged_days(seen, held[i].0, held[i].1, f) == Some(held[i].2));
        if i != pos && held[i].0 == x.0 && held[i].1 == x.1 {
            if i < pos {
                assert(key_of(held[i]) < key_of(held[pos]));
            } else {
                assert(key_of(held[pos]) < key_of(held[i]));
            }
        }
    }
}

/// Where a new month goes: after the months before it and before the
/// months after it.
pub open spec fn insertion_point<T>(held: Seq<Fragment<T>>, x: Fragment<T>, pos: int) -> bool {
    &&& 0 <= pos <= held.len()
    &&& forall|i: int| 0 <= i < pos ==> key_of(#[trigger] held[i]) < key_of(x)
    &&& forall|i: int| pos <= i < held.len() ==> key_of(x) < key_of(#[trigger] held[i])
}

/// The first fragment of a month enters the merge normalized, at its place
/// in the order of months.
proof fn lemma_merge_insert_months(
    held: Seq<Fragment<BiDay>>,
    seen: Seq<Fragment<BiDay>>,
    x: Fragment<BiDay>,
    pos: int,
)
    requires
        merge_months(held, seen),
        supported_year(x.0 as int),
        insertion_point(held, x, pos),
    ensures
        merge_months(
            held.insert(pos, (x.0, x.1, normalized(x.2, x.0 as int, x.1))),
            seen.push(x),
        ),
        !has_month(seen, x.0, x.1),
{
    let now = seen.push(x);
    let entry = (x.0, x.1, normalized(x.2, x.0 as int, x.1));
    let out = held.insert(pos, entry);
    lemma_has_month_push(seen, x);
    assert(key_of(entry) == key_of(x));
    assert forall|i: int, j: int| 0 <= i < j < out.len() implies key_of(#[trigger] out[i])
        < key_of(#[trigger] out[j]) by {
        let hi = if i < pos { i } else { i - 1 };
        let hj = if j < pos { j } else { j - 1 };
        if i != pos {
            assert(out[i] == held[hi]);
        }
        if j != pos {
            assert(out[j] == held[hj]);
        }
        if i != pos && j != pos {
            assert(key_of(held[hi]) < key_of(held[hj]));
        }
    }
    assert forall|i: int| 0 <= i < out.len() implies has_month(now, (#[trigger] out[i]).0, out[i].1)
        && supported_year(out[i].0 as int) && out[i].2.len() == canonical_days(
        out[i].0 as int,
        out[i].1,
    ) by {
        let hi = if i < pos { i } else { i - 1 };
        if i != pos {
            assert(out[i] == held[hi]);
        }
    }
    assert forall|j: int|
        0 <= j < now.len() && supported_year((#[trigger] now[j]).0 as int) implies has_month(
        out,
        now[j].0,
        now[j].1,
    ) by {
        if j < seen.len() {
            assert(seen[j] == now[j]);
            let i = choose|i: int|
                0 <= i < held.len() && (#[trigger] held[i]).0 == now[j].0 && held[i].1
                    == now[j].1;
            let oi = if i < pos { i } else { i + 1 };
            assert(out[oi] == held[i]);
        } else {
            assert(out[pos].0 == x.0 && out[pos].1 == x.1);
        }
    }
    if has_month(seen, x.0, x.1) {
        let j = choose|j: int|
            0 <= j < seen.len() && (#[trigger] seen[j]).0 == x.0 && seen[j].1 == x.1;
        assert(has_month(held, seen[j].0, seen[j].1));
        let i = choose|i: int|
            0 <= i < held.len() && (#[trigger] held[i]).0 == x.0 && held[i].1 == x.1;
        assert(key_of(held[i]) == key_of(x));
    }
}

/// The first fragment of a month brings its normalized flags, and leaves
/// the other months as they are.
proof fn lemma_merge_insert_flags(
    held: Seq<Fragment<BiDay>>,
    seen: Seq<Fragment<BiDay>>,
    x: Fragment<BiDay>,
    pos: int,
    f: spec_fn(BiDay, BiDay) -> BiDay,
)
    requires
        merge_months(held, seen),
        merge_flags(held, seen, f),
        supported_year(x.0 as int),
        insertion_point(held, x, pos),
    ensures
        merge_flags(
            held.insert(pos, (x.0, x.1, normalized(x.2, x.0 as int, x.1))),
            seen.push(x),
            f,
        ),
{
    let entry = (x.0, x.1, normalized(x.2, x.0 as int, x.1));
    let out = held.insert(pos, entry);
    lemma_merge_insert_months(held, seen, x, pos);
    lemma_merged_absent(seen, x.0, x.1, f);
    assert forall|i: int| 0 <= i < out.len() implies merged_days(
        seen.push(x),
        (#[trigger] out[i]).0,
        out[i].1,
        f,
    ) == Some(out[i].2) by {
        lemma_merged_push(seen, x, out[i].0, out[i].1, f);
        let hi = if i < pos { i } else { i - 1 };
        if i != pos {
            assert(out[i] == held[hi]);
            assert(merged_days(seen, held[hi].0, held[hi].1, f) == Some(held[hi].2));
            if held[hi].0 == x.0 && held[hi].1 == x.1 {
                assert(key_of(held[hi]) == key_of(x));
            }
        }
    }
}

/// A fragment of an unsupported year changes nothing of what an operator
/// made of a merge.
proof fn lemma_made_skip<F: Fn(BiDay, BiDay) -> BiDay>(
    held: Seq<Fragment<BiDay>>,
    seen: Seq<Fragment<BiDay>>,
    x: Fragment<BiDay>,
    op: F,
)
    requires
        merge_months(held, seen),
        merge_made_by(held, seen, op),
        !supported_year(x.0 as int),
    ensures
        merge_made_by(held, seen.push(x), op),
{
    let now = seen.push(x);
    assert(now.drop_last() =~= seen);
    assert(now.last() == x);
    assert forall|i: int| 0 <= i < held.len() implies merged_by(
        now,
        (#[trigger] held[i]).0,
        held[i].1,
        op,
        held[i].2,
    ) by {
        assert(merged_by(seen, held[i].0, held[i].1, op, held[i].2));
    }
}

/// A further fragment of a month is combined by the operator with the
/// flags held for that month.
proof fn lemma_made_update<F: Fn(BiDay, BiDay) -> BiDay>(
    held: Seq<Fragment<BiDay>>,
    seen: Seq<Fragment<BiDay>>,
    x: Fragment<BiDay>,
    pos: int,
    combined: Seq<BiDay>,
    op: F,
)
    requires
        merge_months(held, seen),
        merge_made_by(held, seen, op),
        0 <= pos < held.len(),
        held[pos].0 == x.0,
        held[pos].1 == x.1,
        combined_by(op, held[pos].2, normalized(x.2, x.0 as int, x.1), combined),
    ensures
        merge_made_by(held.update(pos, (x.0, x.1, combined)), seen.push(x), op),
{
    let now = seen.push(x);
    let out = held.update(pos, (x.0, x.1, combined));
    assert(now.drop_last() =~= seen);
    assert(now.last() == x);
    assert forall|i: int| 0 <= i < out.len() implies merged_by(
        now,
        (#[trigger] out[i]).0,
        out[i].1,
        op,
        out[i].2,
    ) by {
        assert(merged_by(seen, held[i].0, held[i].1, op, held[i].2));
        if i == pos {
            assert(has_month(seen, held[pos].0, held[pos].1));
            assert(has_month(now.drop_last(), x.0, x.1));
            assert(merged_by(now.drop_last(), x.0, x.1, op, held[pos].2));
            assert(out[pos] == (x.0, x.1, combined));
            assert(merged_by(now, x.0, x.1, op, combined));
        } else {
            if held[i].0 == x.0 && held[i].1 == x.1 {
                if i < pos {
                    assert(key_of(held[i]) < key_of(held[pos]));
                } else {
                    assert(key_of(held[pos]) < key_of(held[i]));
                }
            }
            assert(out[i] == held[i]);
            assert(merged_by(now, held[i].0, held[i].1, op, held[i].2));
        }
    }
}

/// The first fragment of a month brings its normalized flags, whatever the
/// operator.
proof fn lemma_made_insert<F: Fn(BiDay, BiDay) -> BiDay>(
    held: Seq<Fragment<BiDay>>,
    seen: Seq<Fragment<BiDay>>,
    x: Fragment<BiDay>,
    pos: int,
    op: F,
)
    requires
        merge_months(held, seen),
        merge_made_by(held, seen, op),
        supported_year(x.0 as int),
        insertion_point(held, x, pos),
    ensures
        merge_made_by(
            held.insert(pos, (x.0, x.1, normalized(x.2, x.0 as int, x.1))),
            seen.push(x),
            op,
        ),
{
    let now = seen.push(x);
    let out = held.insert(pos, (x.0, x.1, normalized(x.2, x.0 as int, x.1)));
    assert(now.drop_last() =~= seen);
    assert(now.last() == x);
    lemma_merge_insert_months(held, seen, x, pos);
    assert forall|i: int| 0 <= i < out.len() implies merged_by(
        now,
        (#[trigger] out[i]).0,
        out[i].1,
        op,
        out[i].2,
    ) by {
        let hi = if i < pos { i } else { i - 1 };
        if i != pos {
            assert(out[i] == held[hi]);
            assert(merged_by(seen, held[hi].0, held[hi].1, op, held[hi].2));
            if held[hi].0 == x.0 && held[hi].1 == x.1 {
                assert(key_of(held[hi]) == key_of(x));
            }
        }
    }
}

/// Returns the place of a month among fragments in ascending order: the
/// index of the first fragment that is not before it.
pub fn find_month<T>(res: &Vec<(Year, Month, Vec<T>)>, year: Year, month: Month) -> (pos: usize)
    requires
        ascending(fragments_of(res@)),
    ensures
        pos <= res@.len(),
        pos < res@.len() && res@[pos as int].0 == year && res@[pos as int].1 == month
            || insertion_point(fragments_of(res@), (year, month, Seq::empty()), pos as int),
{
    let target: u32 = year as u32 * 12 + month.to_index() as u32;
    let ghost held = fragments_of(res@);
    let mut pos: usize = 0;
    while pos < res.len() && (res[pos].0 as u32 * 12 + res[pos].1.to_index() as u32) < target
        invariant
            pos <= res@.len(),
            held == fragments_of(res@),
            target == month_key(year as int, month) + 1,
            forall|i: int| 0 <= i < pos ==> key_of(#[trigger] held[i]) < month_key(year as int, month),
        decreases res@.len() - pos,
    {
        pos += 1;
    }
    proof {
        if pos < res.len() {
            assert(key_of(held[pos as int]) >= month_key(year as int, month));
            if key_of(held[pos as int]) == month_key(year as int, month) {
                lemma_month_key_injective(
                    held[pos as int].0 as int,
                    held[pos as int].1,
                    year as int,
                    month,
                );
            } else {
                assert forall|i: int| pos <= i < held.len() implies month_key(year as int, month)
                    < key_of(#[trigger] held[i]) by {
                    if i > pos {
                        assert(key_of(held[pos as int]) < key_of(held[i]));
                    }
                }
            }
        }
    }
    pos
}

/// Merges the fragments of a calendar month by month. The fragments of a
/// supported year are normalized to the length of their month; those of one
/// month are combined with `op`, in the order in which they stand, and a
/// month with a single fragment keeps that fragment's normalized flags. The
/// result holds one fragment for each such month, in ascending order.
/// Fragments of a year outside 1..=9999 have no canonical length and are
/// left out. Where the operator computes a function of its two flags, the
/// flags of the result are that function folded over the fragments.
pub fn resume<F>(calendar: &DaysCalendar<BiDay>, op: F) -> (r: DaysCalendar<BiDay>) where
    F: Fn(BiDay, BiDay) -> BiDay,

    requires
        forall|a: BiDay, b: BiDay| #[trigger] call_requires(op, (a, b)),
    ensures
        merge_months(r@, calendar@),
        merge_made_by(r@, calendar@, op),
        forall|f: spec_fn(BiDay, BiDay) -> BiDay| #[trigger]
            computes(op, f) ==> is_merge(r@, calendar@, f),
{
    let mut res: Vec<(Year, Month, Vec<BiDay>)> = Vec::new();
    let n = calendar.days_calendar.len();
    let mut k: usize = 0;
    assert(calendar@.subrange(0, 0) =~= Seq::<Fragment<BiDay>>::empty());
    while k < n
        invariant
            n == calendar.days_calendar@.len(),
            k <= n,
            forall|a: BiDay, b: BiDay| #[trigger] call_requires(op, (a, b)),
            merge_months(fragments_of(res@), calendar@.subrange(0, k as int)),
            merge_made_by(fragments_of(res@), calendar@.subrange(0, k as int), op),
            forall|f: spec_fn(BiDay, BiDay) -> BiDay| #[trigger]
                computes(op, f) ==> merge_flags(
                    fragments_of(res@),
                    calendar@.subrange(0, k as int),
                    f,
                ),
        decreases n - k,
    {
        let frag = &calendar.days_calendar[k];
        let year = frag.0;
        let month = frag.1;
        let ghost seen = calendar@.subrange(0, k as int);
        let ghost x = calendar@[k as int];
        let ghost held = fragments_of(res@);
        assert(calendar@.subrange(0, k as int + 1) =~= seen.push(x));
        if year >= 1 && year <= 9999 {
            let pos = find_month(&res, year, month);
            let norm = normalize_biday(frag.2.as_slice(), year, month);
            if pos < res.len() && res[pos].0 == year && res[pos].1 == month {
                assert(held[pos as int].2.len() == canonical_days(year as int, month));
                let combined = combine_with(&res[pos].2, &norm, &op);
                res[pos] = (year, month, combined);
                proof {
                    assert(fragments_of(res@) =~= held.update(
                        pos as int,
                        (year, month, combined@),
                    ));
                    lemma_merge_update_months(held, seen, x, pos as int, combined@);
                    lemma_made_update(held, seen, x, pos as int, combined@, op);
                    assert forall|f: spec_fn(BiDay, BiDay) -> BiDay| #[trigger]
                        computes(op, f) implies merge_flags(
                        fragments_of(res@),
                        seen.push(x),
                        f,
                    ) by {
                        lemma_merge_update_flags(held, seen, x, pos as int, combined@, f);
                    }
                }
            } else {
                res.insert(pos, (year, month, norm));
                proof {
                    assert(key_of(x) == key_of((year, month, Seq::<BiDay>::empty())));
                    assert(insertion_point(held, x, pos as int));
                    assert(fragments_of(res@) =~= held.insert(pos as int, (year, month, norm@)));
                    lemma_merge_insert_months(held, seen, x, pos as int);
                    lemma_made_insert(held, seen, x, pos as int, op);
                    assert forall|f: spec_fn(BiDay, BiDay) -> BiDay| #[trigger]
                        computes(op, f) implies merge_flags(
                        fragments_of(res@),
                        seen.push(x),
                        f,
                    ) by {
                        lemma_merge_insert_flags(held, seen, x, pos as int, f);
                    }
                }
            }
        } else {
            proof {
                lemma_merge_skip_months(held, seen, x);
                lemma_made_skip(held, seen, x, op);
                assert forall|f: spec_fn(BiDay, BiDay) -> BiDay| #[trigger]
                    computes(op, f) implies merge_flags(held, seen.push(x), f) by {
                    lemma_merge_skip_flags(held, seen, x, f);
                }
            }
        }
        k += 1;
    }
    assert(calendar@.subrange(0, n as int) =~= calendar@);
    DaysCalendar { days_calendar: res }
}

impl DaysCalendar<BiDay> {
    /// Creates the calendar of one month with every day included, or `None`
    /// for a year outside 1..=9999.
    pub fn singleton(year: Year, month: Month) -> (r: Option<DaysCalendar<BiDay>>)
        ensures
            supported_year(year as int) <==> r is Some,
            r matches Some(c) ==> c@ == seq![
                (
                    year,
                    month,
                    Seq::new(canonical_days(year as int, month) as nat, |i: int| BiDay::One),
                ),
            ],
    {
        if let Some(n_days) = days_in_month(year, month) {
            let mut days_calendar: Vec<(Year, Month, Vec<BiDay>)> = Vec::new();
            let vec: Vec<BiDay> = generate_vec_days(n_days as usize, BiDay::One);
            days_calendar.push((year, month, vec));
            let c = DaysCalendar { days_calendar };
            assert(c@ =~= seq![
                (
                    year,
                    month,
                    Seq::new(canonical_days(year as int, month) as nat, |i: int| BiDay::One),
                ),
            ]);
            Some(c)
        } else {
            None
        }
    }

    /// Creates a calendar that owns the given fragments as they are.
    pub fn new(data: Vec<(Year, Month, Vec<BiDay>)>) -> (r: Self)
        ensures
            r.days_calendar == data,
            r@ == fragments_of(data@),
    {
        Self { days_calendar: data }
    }

    /// Creates a calendar without fragments.
    pub fn empty() -> (r: DaysCalendar<BiDay>)
        ensures
            r@ == Seq::<Fragment<BiDay>>::empty(),
    {
        let c = DaysCalendar { days_calendar: Vec::new() };
        assert(c@ =~= Seq::<Fragment<BiDay>>::empty());
        c
    }

    /// Returns the fragments of `self` followed by those of `other`, none
    /// of them merged or normalized.
    pub fn append(&self, other: &Self) -> (r: DaysCalendar<BiDay>)
        ensures
            r@ == self@ + other@,
    {
        let mut combined_days: Vec<(Year, Month, Vec<BiDay>)> = Vec::new();
        let n = self.days_calendar.len();
        let mut i: usize = 0;
        while i < n
            invariant
                n == self.days_calendar@.len(),
                i <= n,
                combined_days@.len() == i,
                forall|k: int| 0 <= k < i ==> fragments_of(combined_days@)[k] == self@[k],
            decreases n - i,
        {
            let frag = &self.days_calendar[i];
            combined_days.push((frag.0, frag.1, copy_items(&frag.2)));
            i += 1;
        }
        let mut j: usize = 0;
        while j < other.days_calendar.len()
            invariant
                n == self.days_calendar@.len(),
                j <= other.days_calendar@.len(),
                combined_days@.len() == n + j,
                forall|k: int| 0 <= k < n ==> fragments_of(combined_days@)[k] == self@[k],
                forall|k: int| 0 <= k < j ==> fragments_of(combined_days@)[n + k] == other@[k],
            decreases other.days_calendar@.len() - j,
        {
            let frag = &other.days_calendar[j];
            combined_days.push((frag.0, frag.1, copy_items(&frag.2)));
            j += 1;
        }
        assert(fragments_of(combined_days@) =~= self@ + other@);
        DaysCalendar { days_calendar: combined_days }
    }

    /// The union of two calendars: their fragments merged with the union
    /// of flags.
    pub fn or(&self, other: &Self) -> (r: DaysCalendar<BiDay>)
        ensures
            is_merge(r@, self@ + other@, |a: BiDay, b: BiDay| or_flag(a, b)),
    {
        let combined_days: DaysCalendar<BiDay> = self.append(other);
        let r = resume(&combined_days, or_biday_operation);
        assert(computes(or_biday_operation, |a: BiDay, b: BiDay| or_flag(a, b)));
        r
    }

    /// The intersection of two calendars: their fragments merged with the
    /// intersection of flags. A month that only one fragment speaks of
    /// keeps that fragment's normalized flags.
    pub fn and(&self, other: &Self) -> (r: DaysCalendar<BiDay>)
        ensures
            is_merge(r@, self@ + other@, |a: BiDay, b: BiDay| and_flag(a, b)),
    {
        let combined_days: DaysCalendar<BiDay> = self.append(other);
        let r = resume(&combined_days, and_biday_operation);
        assert(computes(and_biday_operation, |a: BiDay, b: BiDay| and_flag(a, b)));
        r
    }

    /// The difference of two calendars: their fragments merged with the
    /// difference of flags, earlier fragments minus later ones.
    pub fn minus(&self, other: &Self) -> (r: DaysCalendar<BiDay>)
        ensures
            is_merge(r@, self@ + other@, |a: BiDay, b: BiDay| minus_flag(a, b)),
    {
        let combined_days: DaysCalendar<BiDay> = self.append(other);
        let r = resume(&combined_days, minus_biday_operation);
        assert(computes(minus_biday_operation, |a: BiDay, b: BiDay| minus_flag(a, b)));
        r
    }

    /// The days on which two calendars agree: their fragments merged with
    /// the match of flags.
    pub fn match_(&self, other: &Self) -> (r: DaysCalendar<BiDay>)
        ensures
            is_merge(r@, self@ + other@, |a: BiDay, b: BiDay| match_flag(a, b)),
    {
        let combined_days: DaysCalendar<BiDay> = self.append(other);
        let r = resume(&combined_days, match_biday_operation);
        assert(computes(match_biday_operation, |a: BiDay, b: BiDay| match_flag(a, b)));
        r
    }

    /// The days on which two calendars differ: their fragments merged with
    /// the mismatch of flags.
    pub fn nomatch(&self, other: &Self) -> (r: DaysCalendar<BiDay>)
        ensures
            is_merge(r@, self@ + other@, |a: BiDay, b: BiDay| nomatch_flag(a, b)),
    {
        let combined_days: DaysCalendar<BiDay> = self.append(other);
        let r = resume(&combined_days, nomatch_biday_operation);
        assert(computes(nomatch_biday_operation, |a: BiDay, b: BiDay| nomatch_flag(a, b)));
        r
    }

    /// Returns the flags of the first fragment that speaks of the given
    /// month, or `None` when no fragment does.
    pub fn get_days(&self, year: Year, month: Month) -> (r: Option<&Vec<BiDay>>)
        ensures
            r is None <==> !has_month(self@, year, month),
            r matches Some(days) ==> days@ == self@[first_of_month(self@, year, month)].2,
    {
        let mut i: usize = 0;
        while i < self.days_calendar.len()
            invariant
                i <= self.days_calendar@.len(),
                forall|j: int|
                    0 <= j < i ==> !((#[trigger] self@[j]).0 == year && self@[j].1 == month),
            decreases self.days_calendar@.len() - i,
        {
            let frag = &self.days_calendar[i];
            if frag.0 == year && frag.1 == month {
                proof {
                    assert(self@[i as int].0 == year && self@[i as int].1 == month);
                    lemma_first_of_month(self@, year, month, i as int);
                }
                return Some(&frag.2);
            }
            i += 1;
        }
        None
    }

    /// Replaces every flag by `Zero`.
    pub fn zeros(self) -> (r: DaysCalendar<BiDay>)
        ensures
            r@ == replicated(seq![BiDay::Zero], self@),
    {
        let pattern: [BiDay; 1] = [BiDay::Zero];
        assert(pattern@ =~= seq![BiDay::Zero]);
        replicate::<BiDay>(pattern.as_slice(), self)
    }

    /// Replaces every flag by `One`.
    pub fn ones(self) -> (r: DaysCalendar<BiDay>)
        ensures
            r@ == replicated(seq![BiDay::One], self@),
    {
        let pattern: [BiDay; 1] = [BiDay::One];
        assert(pattern@ =~= seq![BiDay::One]);
        replicate::<BiDay>(pattern.as_slice(), self)
    }

    /// Replaces the flags of every fragment by `Zero`, `One`, `Zero`, ...
    pub fn upward_step(self) -> (r: DaysCalendar<BiDay>)
        ensures
            r@ == replicated(seq![BiDay::Zero, BiDay::One], self@),
    {
        let pattern: [BiDay; 2] = [BiDay::Zero, BiDay::One];
        assert(pattern@ =~= seq![BiDay::Zero, BiDay::One]);
        replicate::<BiDay>(pattern.as_slice(), self)
    }

    /// Replaces the flags of every fragment by `One`, `Zero`, `One`, ...
    pub fn downward_step(self) -> (r: DaysCalendar<BiDay>)
        ensures
            r@ == replicated(seq![BiDay::One, BiDay::Zero], self@),
    {
        let pattern: [BiDay; 2] = [BiDay::One, BiDay::Zero];
        assert(pattern@ =~= seq![BiDay::One, BiDay::Zero]);
        replicate::<BiDay>(pattern.as_slice(), self)
    }

    /// Flips every flag of every fragment.
    pub fn invert_biday(&self) -> (r: DaysCalendar<BiDay>)
        ensures
            r@ == inverted(self@),
    {
        let mut inverted_calendar: Vec<(Year, Month, Vec<BiDay>)> = Vec::new();
        let n = self.days_calendar.len();
        let mut i: usize = 0;
        while i < n
            invariant
                n == self.days_calendar@.len(),
                i <= n,
                inverted_calendar@.len() == i,
                forall|k: int|
                    0 <= k < i ==> fragments_of(inverted_calendar@)[k] == inverted(self@)[k],
            decreases n - i,
        {
            let frag = &self.days_calendar[i];
            let mut days: Vec<BiDay> = Vec::with_capacity(frag.2.len());
            let mut j: usize = 0;
            while j < frag.2.len()
                invariant
                    j <= frag.2@.len(),
                    days@.len() == j,
                    forall|k: int| 0 <= k < j ==> days@[k] == frag.2@[k].flipped(),
                decreases frag.2@.len() - j,
            {
                let flipped = match frag.2[j] {
                    BiDay::Zero => BiDay::One,
                    BiDay::One => BiDay::Zero,
                };
                days.push(flipped);
                j += 1;
            }
            assert(days@ =~= inverted(self@)[i as int].2);
            inverted_calendar.push((frag.0, frag.1, days));
            i += 1;
        }
        assert(fragments_of(inverted_calendar@) =~= inverted(self@));
        DaysCalendar { days_calendar: inverted_calendar }
    }

    /// Returns the first `n` flags of the calendar, counted across
    /// fragments in order. A fragment is part of the result when fewer than
    /// `n` flags stand before it; the last such fragment is cut where the
    /// count is reached.
    pub fn take_n_biday(&self, n: usize) -> (r: DaysCalendar<BiDay>)
        ensures
            r@ == first_flags(self@, n as int),
    {
        let mut result: Vec<(Year, Month, Vec<BiDay>)> = Vec::new();
        let mut remaining = n;
        let len = self.days_calendar.len();
        let mut i: usize = 0;
        while i < len && remaining > 0
            invariant
                len == self.days_calendar@.len(),
                i <= len,
                remaining <= n,
                remaining > 0 ==> flags_before(self@, i as int) + remaining == n,
                remaining == 0 ==> flags_before(self@, i as int) >= n,
                result@.len() == i,
                forall|k: int|
                    0 <= k < i ==> #[trigger] fragments_of(result@)[k] == first_flags_at(
                        self@,
                        n as int,
                        k,
                    ),
                forall|k: int| 0 <= k < i ==> #[trigger] flags_before(self@, k) < n,
            decreases len - i,
        {
            let frag = &self.days_calendar[i];
            let to_take = if remaining < frag.2.len() {
                remaining
            } else {
                frag.2.len()
            };
            let mut new_days: Vec<BiDay> = Vec::with_capacity(to_take);
            let mut j: usize = 0;
            while j < to_take
                invariant
                    j <= to_take <= frag.2@.len(),
                    new_days@ == frag.2@.subrange(0, j as int),
                decreases to_take - j,
            {
                new_days.push(frag.2[j]);
                j += 1;
                assert(new_days@ =~= frag.2@.subrange(0, j as int));
            }
            assert(new_days@ == first_flags_at(self@, n as int, i as int).2);
            let ghost before = result@;
            result.push((frag.0, frag.1, new_days));
            assert forall|k: int| 0 <= k <= i implies #[trigger] fragments_of(result@)[k]
                == first_flags_at(self@, n as int, k) by {
                if k < i {
                    assert(result@[k] == before[k]);
                    assert(fragments_of(before)[k] == first_flags_at(self@, n as int, k));
                }
            }
            assert(flags_before(self@, i as int + 1) == flags_before(self@, i as int)
                + frag.2@.len());
            remaining -= to_take;
            i += 1;
        }
        proof {
            lemma_flags_before_monotone(self@);
            let out = fragments_of(result@);
            let count = included_count(self@, n as int);
            if i < len {
                assert(remaining == 0);
                assert(flags_before(self@, i as int) >= n);
            }
            lemma_included_count(self@, n as int, i as int);
            assert(out =~= first_flags(self@, n as int));
        }
        DaysCalendar { days_calendar: result }
    }
}

/// The index of the first fragment that speaks of the given month.
pub open spec fn first_of_month<T>(frags: Seq<Fragment<T>>, year: Year, month: Month) -> int {
    choose|i: int|
        0 <= i < frags.len() && (#[trigger] frags[i]).0 == year && frags[i].1 == month && forall|
            j: int,
        |
            0 <= j < i ==> !((#[trigger] frags[j]).0 == year && frags[j].1 == month)
}

/// The first fragment of a month is the one before which no fragment speaks
/// of that month.
pub proof fn lemma_first_of_month<T>(frags: Seq<Fragment<T>>, year: Year, month: Month, i: int)
    requires
        0 <= i < frags.len(),
        frags[i].0 == year && frags[i].1 == month,
        forall|j: int| 0 <= j < i ==> !((#[trigger] frags[j]).0 == year && frags[j].1 == month),
    ensures
        first_of_month(frags, year, month) == i,
        has_month(frags, year, month),
{
    let k = first_of_month(frags, year, month);
    if k < i {
        assert(!(frags[k].0 == year && frags[k].1 == month));
    } else if i < k {
        assert(!(frags[i].0 == year && frags[i].1 == month));
    }
}

/// A calendar with every fragment's flags replaced by the pattern, repeated
/// cyclically over the length that the fragment has.
pub open spec fn replicated(pattern: Seq<BiDay>, frags: Seq<Fragment<BiDay>>) -> Seq<
    Fragment<BiDay>,
> {
    Seq::new(frags.len(), |i: int| (frags[i].0, frags[i].1, tiled(pattern, frags[i].2.len())))
}

/// A calendar with every flag flipped.
pub open spec fn inverted(frags: Seq<Fragment<BiDay>>) -> Seq<Fragment<BiDay>> {
    Seq::new(
        frags.len(),
        |i: int|
            (
                frags[i].0,
                frags[i].1,
                Seq::new(frags[i].2.len(), |j: int| frags[i].2[j].flipped()),
            ),
    )
}

/// The number of flags in the fragments before index `i`.
pub open spec fn flags_before<T>(frags: Seq<Fragment<T>>, i: int) -> int
    decreases i,
{
    if i <= 0 {
        0
    } else {
        flags_before(frags, i - 1) + frags[i - 1].2.len()
    }
}

/// The number of leading fragments before which fewer than `n` flags stand.
pub open spec fn included_count<T>(frags: Seq<Fragment<T>>, n: int) -> int
    decreases frags.len(),
{
    if frags.len() == 0 {
        0
    } else if flags_before(frags, frags.len() - 1) < n {
        frags.len() as int
    } else {
        included_count(frags.drop_last(), n)
    }
}

/// What is left of fragment `i` when only the first `n` flags of the
/// calendar are kept.
pub open spec fn first_flags_at(frags: Seq<Fragment<BiDay>>, n: int, i: int) -> Fragment<BiDay> {
    let room = n - flags_before(frags, i);
    let kept = if room < frags[i].2.len() {
        room
    } else {
        frags[i].2.len() as int
    };
    (frags[i].0, frags[i].1, frags[i].2.subrange(0, kept))
}

/// The first `n` flags of a calendar.
pub open spec fn first_flags(frags: Seq<Fragment<BiDay>>, n: int) -> Seq<Fragment<BiDay>> {
    Seq::new(included_count(frags, n) as nat, |i: int| first_flags_at(frags, n, i))
}

/// The count of flags before a fragment does not decrease along the
/// calendar.
pub proof fn lemma_flags_before_monotone<T>(frags: Seq<Fragment<T>>)
    ensures
        forall|i: int, j: int|
            0 <= i <= j <= frags.len() ==> flags_before(frags, i) <= flags_before(frags, j),
{
    assert forall|i: int, j: int| 0 <= i <= j <= frags.len() implies flags_before(frags, i)
        <= flags_before(frags, j) by {
        lemma_flags_before_step(frags, i, j);
    }
}

/// The count of flags before an earlier fragment is at most the count
/// before a later one.
proof fn lemma_flags_before_step<T>(frags: Seq<Fragment<T>>, i: int, j: int)
    requires
        0 <= i <= j <= frags.len(),
    ensures
        flags_before(frags, i) <= flags_before(frags, j),
    decreases j - i,
{
    if i < j {
        lemma_flags_before_step(frags, i, j - 1);
    }
}

/// The count of flags before a fragment depends only on the fragments
/// before it.
proof fn lemma_flags_before_prefix<T>(frags: Seq<Fragment<T>>, len: int, i: int)
    requires
        0 <= i <= len <= frags.len(),
    ensures
        flags_before(frags.subrange(0, len), i) == flags_before(frags, i),
    decreases i,
{
    if i > 0 {
        lemma_flags_before_prefix(frags, len, i - 1);
    }
}

/// The fragments that are kept are those up to the first one before which
/// `n` flags or more stand.
proof fn lemma_included_count(frags: Seq<Fragment<BiDay>>, n: int, i: int)
    requires
        0 <= i <= frags.len(),
        forall|k: int| 0 <= k < i ==> flags_before(frags, k) < n,
        i < frags.len() ==> flags_before(frags, i) >= n,
    ensures
        included_count(frags, n) == i,
    decreases frags.len(),
{
    if frags.len() > 0 {
        let shorter = frags.drop_last();
        lemma_flags_before_prefix(frags, frags.len() - 1, frags.len() - 1);
        if i == frags.len() {
        } else {
            lemma_flags_before_step(frags, i, frags.len() - 1);
            assert forall|k: int| 0 <= k < i implies flags_before(shorter, k) < n by {
                lemma_flags_before_prefix(frags, frags.len() - 1, k);
            }
            if i < shorter.len() {
                lemma_flags_before_prefix(frags, frags.len() - 1, i);
            }
            lemma_included_count(shorter, n, i);
        }
    }
}

/// Replaces the flags of every fragment by `pattern`, repeated cyclically
/// over the length that the fragment has, which need not be the length of
/// its month.
pub fn replicate<T>(pattern: &[BiDay], calendar: DaysCalendar<BiDay>) -> (r: DaysCalendar<
    BiDay,
>) where T: Clone
    requires
        pattern@.len() > 0 || forall|i: int|
            0 <= i < calendar@.len() ==> (#[trigger] calendar@[i]).2.len() == 0,
    ensures
        r@ == replicated(pattern@, calendar@),
{
    let mut new_calendar: Vec<(Year, Month, Vec<BiDay>)> = Vec::new();
    let n = calendar.days_calendar.len();
    let mut i: usize = 0;
    while i < n
        invariant
            n == calendar.days_calendar@.len(),
            i <= n,
            pattern@.len() > 0 || forall|i: int|
                0 <= i < calendar@.len() ==> (#[trigger] calendar@[i]).2.len() == 0,
            new_calendar@.len() == i,
            forall|k: int|
                0 <= k < i ==> fragments_of(new_calendar@)[k] == replicated(
                    pattern@,
                    calendar@,
                )[k],
        decreases n - i,
    {
        let frag = &calendar.days_calendar[i];
        assert(calendar@[i as int].2.len() == frag.2@.len());
        let new_days = replicate_pattern(pattern, frag.2.len());
        assert(new_days@ == replicated(pattern@, calendar@)[i as int].2);
        let ghost before = new_calendar@;
        new_calendar.push((frag.0, frag.1, new_days));
        assert forall|k: int| 0 <= k <= i implies fragments_of(new_calendar@)[k] == replicated(
            pattern@,
            calendar@,
        )[k] by {
            if k < i {
                assert(new_calendar@[k] == before[k]);
                assert(fragments_of(before)[k] == replicated(pattern@, calendar@)[k]);
            }
        }
        i += 1;
    }
    assert(fragments_of(new_calendar@) =~= replicated(pattern@, calendar@));
    DaysCalendar { days_calendar: new_calendar }
}

} // verus!
