//! The bounds of inclusive ranges, and ascending vectors of (year, month)
//! pairs.

use vstd::prelude::*;
use core::ops::RangeInclusive;
use crate::calendar::month_key;
use crate::keys::ascending_keys;
use crate::types::{Month, Year};

verus! {

/// `RangeInclusive::start` returns the lower bound with which the range
/// was made.
pub assume_specification<Idx>[ RangeInclusive::<Idx>::start ](r: &RangeInclusive<Idx>) -> (ret:
    &Idx)
    ensures
        *ret == r@.start,
;

/// `RangeInclusive::end` returns the upper bound with which the range was
/// made.
pub assume_specification<Idx>[ RangeInclusive::<Idx>::end ](r: &RangeInclusive<Idx>) -> (ret: &Idx)
    ensures
        *ret == r@.end,
;

/// The position on the time line of the month of a pair.
pub open spec fn pair_key(p: (Year, Month)) -> int {
    month_key(p.0 as int, p.1)
}

/// Pairs in strictly ascending order of month, so that none occurs twice.
pub open spec fn ascending_pairs(s: Seq<(Year, Month)>) -> bool {
    forall|i: int, j: int| 0 <= i < j < s.len() ==> pair_key(#[trigger] s[i]) < pair_key(#[trigger] s[j])
}

/// Whether the month of the year is one of the pairs.
pub open spec fn holds_pair(s: Seq<(Year, Month)>, year: int, month: Month) -> bool {
    exists|i: int| 0 <= i < s.len() && (#[trigger] s[i]).0 == year && s[i].1 == month
}

/// The month at a position of the time line, as a pair.
pub open spec fn pair_at(key: int) -> (Year, Month) {
    ((key / 12) as Year, Month::of_index(key % 12 + 1))
}

/// Returns the pair of each key, where a key is the position of a month on
/// the time line.
pub fn pairs_of_keys(keys: &Vec<u32>) -> (r: Vec<(Year, Month)>)
    requires
        ascending_keys(keys@),
        forall|i: int| 0 <= i < keys@.len() ==> keys@[i] < 65536 * 12,
    ensures
        r@.len() == keys@.len(),
        forall|i: int| 0 <= i < r@.len() ==> #[trigger] r@[i] == pair_at(keys@[i] as int),
        forall|i: int| 0 <= i < r@.len() ==> pair_key(#[trigger] r@[i]) == keys@[i],
        ascending_pairs(r@),
{
    let mut out: Vec<(Year, Month)> = Vec::with_capacity(keys.len());
    let mut i: usize = 0;
    while i < keys.len()
        invariant
            i <= keys@.len(),
            out@.len() == i,
            forall|i: int| 0 <= i < keys@.len() ==> keys@[i] < 65536 * 12,
            forall|j: int| 0 <= j < i ==> #[trigger] out@[j] == pair_at(keys@[j] as int),
            forall|j: int| 0 <= j < i ==> pair_key(#[trigger] out@[j]) == keys@[j],
        decreases keys@.len() - i,
    {
        let k = keys[i];
        let year: Year = (k / 12) as Year;
        let month = match Month::from_index((k % 12 + 1) as u8) {
            Some(m) => m,
            None => Month::January,
        };
        out.push((year, month));
        i += 1;
    }
    assert forall|a: int, b: int| 0 <= a < b < out@.len() implies pair_key(#[trigger] out@[a])
        < pair_key(#[trigger] out@[b]) by {
        assert(keys@[a] < keys@[b]);
    }
    out
}

} // verus!
