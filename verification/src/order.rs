//! Ordering entries by month: a stable sort of (year, month, item) entries,
//! and the sorting of the days of a month.

use vstd::prelude::*;
use vstd::relations::{sorted_by, total_ordering};
use vstd::seq_lib::{lemma_sorted_unique, to_multiset_build, to_multiset_insert};
use crate::calendar::month_key;
use crate::types::{Day, Month, Year};

verus! {

/// The position on the time line of the month of an entry.
pub open spec fn entry_key<X>(e: (Year, Month, X)) -> int {
    month_key(e.0 as int, e.1)
}

/// Entries in ascending order of month; entries of one month may follow
/// one another.
pub open spec fn sorted_by_month<X>(s: Seq<(Year, Month, X)>) -> bool {
    forall|i: int, j: int| 0 <= i < j < s.len() ==> entry_key(#[trigger] s[i]) <= entry_key(#[trigger] s[j])
}

/// The items of the entries of the month with the given key, in the order
/// of the entries.
pub open spec fn of_month<X>(s: Seq<(Year, Month, X)>, key: int) -> Seq<X>
    decreases s.len(),
{
    if s.len() == 0 {
        Seq::empty()
    } else {
        let before = of_month(s.drop_last(), key);
        if entry_key(s.last()) == key {
            before.push(s.last().2)
        } else {
            before
        }
    }
}

/// `out` holds the entries of `input` in ascending order of month, those
/// of one month in the order in which `input` holds them.
pub open spec fn is_stable_sort<X>(out: Seq<(Year, Month, X)>, input: Seq<(Year, Month, X)>) -> bool {
    &&& sorted_by_month(out)
    &&& out.len() == input.len()
    &&& forall|key: int| of_month(out, key) == of_month(input, key)
}

/// The items of a month after one more entry.
pub proof fn lemma_of_month_push<X>(s: Seq<(Year, Month, X)>, x: (Year, Month, X), key: int)
    ensures
        of_month(s.push(x), key) == if entry_key(x) == key {
            of_month(s, key).push(x.2)
        } else {
            of_month(s, key)
        },
{
    assert(s.push(x).drop_last() =~= s);
    assert(s.push(x).last() == x);
}

/// The items of a month in two sequences of entries, one after the other.
pub proof fn lemma_of_month_concat<X>(a: Seq<(Year, Month, X)>, b: Seq<(Year, Month, X)>, key: int)
    ensures
        of_month(a + b, key) == of_month(a, key) + of_month(b, key),
    decreases b.len(),
{
    if b.len() == 0 {
        assert(a + b =~= a);
        assert(of_month(a, key) + of_month(b, key) =~= of_month(a, key));
    } else {
        let b0 = b.drop_last();
        lemma_of_month_concat(a, b0, key);
        assert((a + b).drop_last() =~= a + b0);
        assert((a + b).last() == b.last());
        if entry_key(b.last()) == key {
            assert((of_month(a, key) + of_month(b0, key)).push(b.last().2) =~= of_month(a, key)
                + of_month(b0, key).push(b.last().2));
        }
    }
}

/// Entries of other months hold no item of a month.
pub proof fn lemma_of_month_absent<X>(s: Seq<(Year, Month, X)>, key: int)
    requires
        forall|i: int| 0 <= i < s.len() ==> entry_key(#[trigger] s[i]) != key,
    ensures
        of_month(s, key) == Seq::<X>::empty(),
    decreases s.len(),
{
    if s.len() > 0 {
        let rest = s.drop_last();
        assert forall|i: int| 0 <= i < rest.len() implies entry_key(#[trigger] rest[i]) != key by {
            assert(rest[i] == s[i]);
        }
        lemma_of_month_absent(rest, key);
        assert(entry_key(s[s.len() - 1]) != key);
    }
}

/// An entry put after the entries that are not after it, and before those
/// that are, adds its item at the end of the items of its month.
pub proof fn lemma_of_month_insert<X>(
    s: Seq<(Year, Month, X)>,
    pos: int,
    x: (Year, Month, X),
    key: int,
)
    requires
        0 <= pos <= s.len(),
        forall|i: int| pos <= i < s.len() ==> entry_key(#[trigger] s[i]) > entry_key(x),
    ensures
        of_month(s.insert(pos, x), key) == if entry_key(x) == key {
            of_month(s, key).push(x.2)
        } else {
            of_month(s, key)
        },
{
    let head = s.subrange(0, pos);
    let tail = s.subrange(pos, s.len() as int);
    assert(s =~= head + tail);
    assert(s.insert(pos, x) =~= head.push(x) + tail);
    lemma_of_month_concat(head, tail, key);
    lemma_of_month_concat(head.push(x), tail, key);
    lemma_of_month_push(head, x, key);
    if entry_key(x) == key {
        assert forall|i: int| 0 <= i < tail.len() implies entry_key(#[trigger] tail[i]) != key by {
            assert(tail[i] == s[pos + i]);
        }
        lemma_of_month_absent(tail, key);
        assert(of_month(head, key) + Seq::<X>::empty() =~= of_month(head, key));
        assert(of_month(head, key).push(x.2) + Seq::<X>::empty() =~= of_month(head, key).push(
            x.2,
        ));
    }
}

/// Returns the entries in ascending order of month, those of one month in
/// the order in which they were given.
pub fn sort_by_month<X>(v: Vec<(Year, Month, X)>) -> (r: Vec<(Year, Month, X)>)
    ensures
        is_stable_sort(r@, v@),
{
    let mut rest = v;
    let mut out: Vec<(Year, Month, X)> = Vec::new();
    let ghost input = rest@;
    let ghost mut done: int = 0;
    assert(input.subrange(0, 0) =~= Seq::<(Year, Month, X)>::empty());
    assert(rest@ =~= input.subrange(0, input.len() as int));
    while rest.len() > 0
        invariant
            0 <= done <= input.len(),
            rest@ == input.subrange(done, input.len() as int),
            is_stable_sort(out@, input.subrange(0, done)),
        decreases rest@.len(),
    {
        let x = rest.remove(0);
        let target: u32 = x.0 as u32 * 12 + x.1.to_index() as u32;
        let mut pos: usize = 0;
        while pos < out.len() && (out[pos].0 as u32 * 12 + out[pos].1.to_index() as u32) <= target
            invariant
                pos <= out@.len(),
                target == entry_key(x) + 1,
                forall|i: int| 0 <= i < pos ==> entry_key(#[trigger] out@[i]) <= entry_key(x),
            decreases out@.len() - pos,
        {
            pos += 1;
        }
        let ghost before = out@;
        let ghost seen = input.subrange(0, done);
        proof {
            assert(x == input[done]);
            assert forall|i: int| pos <= i < before.len() implies entry_key(#[trigger] before[i])
                > entry_key(x) by {
                if i > pos {
                    assert(entry_key(before[pos as int]) <= entry_key(before[i]));
                }
            }
        }
        out.insert(pos, x);
        proof {
            assert(input.subrange(0, done + 1) =~= seen.push(x));
            assert forall|key: int| of_month(out@, key) == of_month(seen.push(x), key) by {
                lemma_of_month_insert(before, pos as int, x, key);
                lemma_of_month_push(seen, x, key);
            }
            assert forall|i: int, j: int| 0 <= i < j < out@.len() implies entry_key(
                #[trigger] out@[i],
            ) <= entry_key(#[trigger] out@[j]) by {
                let bi = if i < pos { i } else { i - 1 };
                let bj = if j < pos { j } else { j - 1 };
                if i != pos && j != pos {
                    assert(entry_key(before[bi]) <= entry_key(before[bj]));
                } else if i == pos {
                    assert(out@[j] == before[bj]);
                } else {
                    assert(out@[i] == before[bi]);
                }
            }
            assert(rest@ =~= input.subrange(done + 1, input.len() as int));
            done = done + 1;
        }
    }
    assert(input.subrange(0, input.len() as int) =~= input);
    out
}

/// The order of days.
pub open spec fn day_leq() -> spec_fn(Day, Day) -> bool {
    |a: Day, b: Day| a <= b
}

/// The days of a sequence in ascending order, repeats kept.
pub open spec fn sorted_days(days: Seq<Day>) -> Seq<Day> {
    days.sort_by(day_leq())
}

/// The sorted days are in ascending order and are the days given, each as
/// often as it was given.
pub proof fn lemma_sorted_days(days: Seq<Day>)
    ensures
        sorted_by(sorted_days(days), day_leq()),
        sorted_days(days).to_multiset() == days.to_multiset(),
        forall|d: Day| sorted_days(days).contains(d) <==> days.contains(d),
{
    assert(total_ordering(day_leq()));
    days.lemma_sort_by_ensures(day_leq());
    broadcast use vstd::seq_lib::group_to_multiset_ensures;

    assert forall|d: Day| sorted_days(days).contains(d) <==> days.contains(d) by {
        assert(sorted_days(days).to_multiset().count(d) == days.to_multiset().count(d));
    }
}

/// Returns the days in ascending order, repeats kept.
pub fn sort_days(days: &Vec<Day>) -> (r: Vec<Day>)
    ensures
        r@ == sorted_days(days@),
{
    let mut out: Vec<Day> = Vec::with_capacity(days.len());
    let mut i: usize = 0;
    assert(days@.subrange(0, 0) =~= Seq::<Day>::empty());
    while i < days.len()
        invariant
            i <= days@.len(),
            sorted_by(out@, day_leq()),
            out@.to_multiset() == days@.subrange(0, i as int).to_multiset(),
        decreases days@.len() - i,
    {
        let d = days[i];
        let mut pos: usize = 0;
        while pos < out.len() && out[pos] <= d
            invariant
                pos <= out@.len(),
                forall|k: int| 0 <= k < pos ==> out@[k] <= d,
            decreases out@.len() - pos,
        {
            pos += 1;
        }
        let ghost before = out@;
        proof {
            assert forall|k: int| pos <= k < before.len() implies d <= before[k] by {
                if k > pos {
                    assert(day_leq()(before[pos as int], before[k]));
                }
            }
        }
        out.insert(pos, d);
        proof {
            to_multiset_insert(before, pos as int, d);
            to_multiset_build(days@.subrange(0, i as int), d);
            assert(days@.subrange(0, i as int).push(d) =~= days@.subrange(0, i + 1));
            assert forall|a: int, b: int| 0 <= a < b < out@.len() implies #[trigger] day_leq()(
                out@[a],
                out@[b],
            ) by {
                let ba = if a < pos { a } else { a - 1 };
                let bb = if b < pos { b } else { b - 1 };
                if a != pos && b != pos {
                    assert(day_leq()(before[ba], before[bb]));
                }
            }
        }
        i += 1;
    }
    proof {
        assert(days@.subrange(0, days@.len() as int) =~= days@);
        assert(total_ordering(day_leq()));
        lemma_sorted_days(days@);
        lemma_sorted_unique(out@, sorted_days(days@), day_leq());
    }
    out
}

/// Entries with each item replaced by what `f` makes of it.
pub open spec fn with_items<X, Y>(s: Seq<(Year, Month, X)>, f: spec_fn(X) -> Y) -> Seq<
    (Year, Month, Y),
> {
    Seq::new(s.len(), |i: int| (s[i].0, s[i].1, f(s[i].2)))
}

/// Replacing items commutes with taking the items of a month.
pub proof fn lemma_of_month_with_items<X, Y>(
    s: Seq<(Year, Month, X)>,
    f: spec_fn(X) -> Y,
    key: int,
)
    ensures
        of_month(with_items(s, f), key) == of_month(s, key).map_values(f),
    decreases s.len(),
{
    if s.len() == 0 {
        assert(of_month(s, key).map_values(f) =~= Seq::<Y>::empty());
    } else {
        let rest = s.drop_last();
        lemma_of_month_with_items(rest, f, key);
        assert(with_items(s, f).drop_last() =~= with_items(rest, f));
        if entry_key(s.last()) == key {
            assert(of_month(rest, key).push(s.last().2).map_values(f) =~= of_month(
                rest,
                key,
            ).map_values(f).push(f(s.last().2)));
        }
    }
}

/// A stable sort stays one when the items of both sides are replaced in
/// the same way.
pub proof fn lemma_stable_sort_with_items<X, Y>(
    out: Seq<(Year, Month, X)>,
    input: Seq<(Year, Month, X)>,
    f: spec_fn(X) -> Y,
)
    requires
        is_stable_sort(out, input),
    ensures
        is_stable_sort(with_items(out, f), with_items(input, f)),
{
    let a = with_items(out, f);
    assert forall|i: int, j: int| 0 <= i < j < a.len() implies entry_key(#[trigger] a[i])
        <= entry_key(#[trigger] a[j]) by {
        assert(entry_key(out[i]) <= entry_key(out[j]));
    }
    assert forall|key: int| of_month(a, key) == of_month(with_items(input, f), key) by {
        lemma_of_month_with_items(out, f, key);
        lemma_of_month_with_items(input, f, key);
    }
}

} // verus!
