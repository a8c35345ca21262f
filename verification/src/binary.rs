//! The binary operators on day flags, their pointwise application to flag
//! vectors, and normalization of a flag vector to the length of its month.

use vstd::prelude::*;
use crate::types::{BiDay, Month, Year};
use crate::utils::{canonical_days, days_in_month, supported_year};

verus! {

/// The names of the operators that combine two calendars.
#[derive(Debug, PartialEq, Eq, Clone, Copy, Hash)]
pub enum DaysCalendarOperator {
    DcOr,
    DcAnd,
    DcAdd,
    DcSustract,
    DcMatchAny,
}

/// Union: included when either side is.
pub open spec fn or_flag(a: BiDay, b: BiDay) -> BiDay {
    if a == BiDay::One || b == BiDay::One {
        BiDay::One
    } else {
        BiDay::Zero
    }
}

/// Intersection: included when both sides are.
pub open spec fn and_flag(a: BiDay, b: BiDay) -> BiDay {
    if a == BiDay::One && b == BiDay::One {
        BiDay::One
    } else {
        BiDay::Zero
    }
}

/// Difference: included on the left and not on the right.
pub open spec fn minus_flag(a: BiDay, b: BiDay) -> BiDay {
    if a == BiDay::One && b == BiDay::Zero {
        BiDay::One
    } else {
        BiDay::Zero
    }
}

/// Match: both sides agree.
pub open spec fn match_flag(a: BiDay, b: BiDay) -> BiDay {
    if a == b {
        BiDay::One
    } else {
        BiDay::Zero
    }
}

/// Mismatch: the sides differ.
pub open spec fn nomatch_flag(a: BiDay, b: BiDay) -> BiDay {
    if a == b {
        BiDay::Zero
    } else {
        BiDay::One
    }
}

/// Hole: excluded on both sides.
pub open spec fn holes_flag(a: BiDay, b: BiDay) -> BiDay {
    if a == BiDay::Zero && b == BiDay::Zero {
        BiDay::One
    } else {
        BiDay::Zero
    }
}

/// Two flag vectors of equal length combined position by position.
pub open spec fn pointwise(
    a: Seq<BiDay>,
    b: Seq<BiDay>,
    f: spec_fn(BiDay, BiDay) -> BiDay,
) -> Seq<BiDay> {
    Seq::new(a.len(), |i: int| f(a[i], b[i]))
}

/// An executable operator that is defined on every pair of flags and
/// computes the function `f`.
pub open spec fn computes<F: Fn(BiDay, BiDay) -> BiDay>(
    op: F,
    f: spec_fn(BiDay, BiDay) -> BiDay,
) -> bool {
    &&& forall|a: BiDay, b: BiDay| #[trigger] call_requires(op, (a, b))
    &&& forall|a: BiDay, b: BiDay, r: BiDay| #[trigger]
        call_ensures(op, (a, b), r) ==> r == f(a, b)
}

/// `out` is what the executable operator made of two flag vectors of equal
/// length, position by position.
pub open spec fn combined_by<F: Fn(BiDay, BiDay) -> BiDay>(
    op: F,
    a: Seq<BiDay>,
    b: Seq<BiDay>,
    out: Seq<BiDay>,
) -> bool {
    &&& a.len() == b.len()
    &&& out.len() == a.len()
    &&& forall|i: int| 0 <= i < a.len() ==> call_ensures(op, (a[i], b[i]), #[trigger] out[i])
}

/// A flag vector cut or padded with `fill` to exactly `n` flags.
pub open spec fn completed(n: nat, fill: BiDay, v: Seq<BiDay>) -> Seq<BiDay> {
    Seq::new(
        n,
        |i: int|
            if i < v.len() {
                v[i]
            } else {
                fill
            },
    )
}

/// A flag vector cut or padded with `Zero` to the canonical length of its
/// month.
pub open spec fn normalized(days: Seq<BiDay>, year: int, month: Month) -> Seq<BiDay> {
    completed(canonical_days(year, month) as nat, BiDay::Zero, days)
}

/// A pattern repeated cyclically up to `n` flags.
pub open spec fn tiled(pattern: Seq<BiDay>, n: nat) -> Seq<BiDay> {
    Seq::new(n, |i: int| pattern[i % (pattern.len() as int)])
}

/// Applies `operator` to the flags of `a` and `b` position by position.
pub fn apply_operator<F>(a: &[BiDay], b: &[BiDay], operator: F) -> (r: Vec<BiDay>) where
    F: Fn(BiDay, BiDay) -> BiDay,

    requires
        a@.len() == b@.len(),
        forall|i: int| 0 <= i < a@.len() ==> call_requires(operator, (#[trigger] a@[i], b@[i])),
    ensures
        combined_by(operator, a@, b@, r@),
        forall|f: spec_fn(BiDay, BiDay) -> BiDay| #[trigger]
            computes(operator, f) ==> r@ == pointwise(a@, b@, f),
{
    let n = a.len();
    let mut result: Vec<BiDay> = Vec::with_capacity(n);
    let mut i: usize = 0;
    while i < n
        invariant
            n == a@.len(),
            a@.len() == b@.len(),
            i <= n,
            result@.len() == i,
            forall|j: int| 0 <= j < a@.len() ==> call_requires(operator, (#[trigger] a@[j], b@[j])),
            forall|j: int|
                0 <= j < i ==> call_ensures(operator, (a@[j], b@[j]), #[trigger] result@[j]),
        decreases n - i,
    {
        let x = operator(a[i], b[i]);
        result.push(x);
        i += 1;
    }
    assert forall|f: spec_fn(BiDay, BiDay) -> BiDay| #[trigger]
        computes(operator, f) implies result@ == pointwise(a@, b@, f) by {
        assert(result@ =~= pointwise(a@, b@, f));
    }
    result
}

/// The union of two flags.
pub fn or_biday_operation(a: BiDay, b: BiDay) -> (r: BiDay)
    ensures
        r == or_flag(a, b),
        a == BiDay::Zero && b == BiDay::Zero ==> r == BiDay::Zero,
        a == BiDay::Zero && b == BiDay::One ==> r == BiDay::One,
        a == BiDay::One && b == BiDay::Zero ==> r == BiDay::One,
        a == BiDay::One && b == BiDay::One ==> r == BiDay::One,
{
    match (a, b) {
        (BiDay::One, _) | (_, BiDay::One) => BiDay::One,
        (BiDay::Zero, BiDay::Zero) => BiDay::Zero,
    }
}

/// The union of two flag vectors of equal length.
pub fn or_daycalendar(v1: &[BiDay], v2: &[BiDay]) -> (r: Vec<BiDay>)
    requires
        v1@.len() == v2@.len(),
    ensures
        r@ == pointwise(v1@, v2@, |a: BiDay, b: BiDay| or_flag(a, b)),
{
    let r = apply_operator(v1, v2, or_biday_operation);
    assert(r@ =~= pointwise(v1@, v2@, |a: BiDay, b: BiDay| or_flag(a, b)));
    r
}

/// The intersection of two flags.
pub fn and_biday_operation(a: BiDay, b: BiDay) -> (r: BiDay)
    ensures
        r == and_flag(a, b),
        a == BiDay::Zero && b == BiDay::Zero ==> r == BiDay::Zero,
        a == BiDay::Zero && b == BiDay::One ==> r == BiDay::Zero,
        a == BiDay::One && b == BiDay::Zero ==> r == BiDay::Zero,
        a == BiDay::One && b == BiDay::One ==> r == BiDay::One,
{
    match (a, b) {
        (BiDay::One, BiDay::One) => BiDay::One,
        _ => BiDay::Zero,
    }
}

/// The intersection of two flag vectors of equal length.
pub fn and_daycalendar(v1: &[BiDay], v2: &[BiDay]) -> (r: Vec<BiDay>)
    requires
        v1@.len() == v2@.len(),
    ensures
        r@ == pointwise(v1@, v2@, |a: BiDay, b: BiDay| and_flag(a, b)),
{
    let r = apply_operator(v1, v2, and_biday_operation);
    assert(r@ =~= pointwise(v1@, v2@, |a: BiDay, b: BiDay| and_flag(a, b)));
    r
}

/// The difference of two flags: the left one without the right one.
pub fn minus_biday_operation(a: BiDay, b: BiDay) -> (r: BiDay)
    ensures
        r == minus_flag(a, b),
        a == BiDay::Zero && b == BiDay::Zero ==> r == BiDay::Zero,
        a == BiDay::Zero && b == BiDay::One ==> r == BiDay::Zero,
        a == BiDay::One && b == BiDay::Zero ==> r == BiDay::One,
        a == BiDay::One && b == BiDay::One ==> r == BiDay::Zero,
{
    match (a, b) {
        (BiDay::One, BiDay::One) => BiDay::Zero,
        (BiDay::One, BiDay::Zero) => BiDay::One,
        (BiDay::Zero, _) => BiDay::Zero,
    }
}

/// The difference of two flag vectors of equal length.
pub fn minus_daycalendar(v1: &[BiDay], v2: &[BiDay]) -> (r: Vec<BiDay>)
    requires
        v1@.len() == v2@.len(),
    ensures
        r@ == pointwise(v1@, v2@, |a: BiDay, b: BiDay| minus_flag(a, b)),
{
    let r = apply_operator(v1, v2, minus_biday_operation);
    assert(r@ =~= pointwise(v1@, v2@, |a: BiDay, b: BiDay| minus_flag(a, b)));
    r
}

/// The sum of two flags, which saturates at `One` and so equals their union.
pub fn add_biday_operation(a: BiDay, b: BiDay) -> (r: BiDay)
    ensures
        r == or_flag(a, b),
        a == BiDay::Zero && b == BiDay::Zero ==> r == BiDay::Zero,
        a == BiDay::Zero && b == BiDay::One ==> r == BiDay::One,
        a == BiDay::One && b == BiDay::Zero ==> r == BiDay::One,
        a == BiDay::One && b == BiDay::One ==> r == BiDay::One,
{
    match (a, b) {
        (BiDay::One, BiDay::One) => BiDay::One,
        (BiDay::One, BiDay::Zero) => BiDay::One,
        (BiDay::Zero, BiDay::One) => BiDay::One,
        _ => BiDay::Zero,
    }
}

/// The sum of two flag vectors of equal length.
pub fn add_daycalendar(v1: &[BiDay], v2: &[BiDay]) -> (r: Vec<BiDay>)
    requires
        v1@.len() == v2@.len(),
    ensures
        r@ == pointwise(v1@, v2@, |a: BiDay, b: BiDay| or_flag(a, b)),
{
    let r = apply_operator(v1, v2, add_biday_operation);
    assert(r@ =~= pointwise(v1@, v2@, |a: BiDay, b: BiDay| or_flag(a, b)));
    r
}

/// Whether two flags agree.
pub fn match_biday_operation(a: BiDay, b: BiDay) -> (r: BiDay)
    ensures
        r == match_flag(a, b),
        a == BiDay::Zero && b == BiDay::Zero ==> r == BiDay::One,
        a == BiDay::Zero && b == BiDay::One ==> r == BiDay::Zero,
        a == BiDay::One && b == BiDay::Zero ==> r == BiDay::Zero,
        a == BiDay::One && b == BiDay::One ==> r == BiDay::One,
{
    match (a, b) {
        (BiDay::One, BiDay::One) => BiDay::One,
        (BiDay::Zero, BiDay::Zero) => BiDay::One,
        _ => BiDay::Zero,
    }
}

/// The positions at which two flag vectors of equal length agree.
pub fn match_daycalendar(v1: &[BiDay], v2: &[BiDay]) -> (r: Vec<BiDay>)
    requires
        v1@.len() == v2@.len(),
    ensures
        r@ == pointwise(v1@, v2@, |a: BiDay, b: BiDay| match_flag(a, b)),
{
    let r = apply_operator(v1, v2, match_biday_operation);
    assert(r@ =~= pointwise(v1@, v2@, |a: BiDay, b: BiDay| match_flag(a, b)));
    r
}

/// Whether two flags differ.
pub fn nomatch_biday_operation(a: BiDay, b: BiDay) -> (r: BiDay)
    ensures
        r == nomatch_flag(a, b),
        a == BiDay::Zero && b == BiDay::Zero ==> r == BiDay::Zero,
        a == BiDay::Zero && b == BiDay::One ==> r == BiDay::One,
        a == BiDay::One && b == BiDay::Zero ==> r == BiDay::One,
        a == BiDay::One && b == BiDay::One ==> r == BiDay::Zero,
{
    match (a, b) {
        (BiDay::One, BiDay::One) => BiDay::Zero,
        (BiDay::Zero, BiDay::Zero) => BiDay::Zero,
        _ => BiDay::One,
    }
}

/// The positions at which two flag vectors of equal length differ.
pub fn nomatch_daycalendar(v1: &[BiDay], v2: &[BiDay]) -> (r: Vec<BiDay>)
    requires
        v1@.len() == v2@.len(),
    ensures
        r@ == pointwise(v1@, v2@, |a: BiDay, b: BiDay| nomatch_flag(a, b)),
{
    let r = apply_operator(v1, v2, nomatch_biday_operation);
    assert(r@ =~= pointwise(v1@, v2@, |a: BiDay, b: BiDay| nomatch_flag(a, b)));
    r
}

/// Whether a day is excluded on both sides.
pub fn holes_biday_operation(a: BiDay, b: BiDay) -> (r: BiDay)
    ensures
        r == holes_flag(a, b),
        a == BiDay::Zero && b == BiDay::Zero ==> r == BiDay::One,
        a == BiDay::Zero && b == BiDay::One ==> r == BiDay::Zero,
        a == BiDay::One && b == BiDay::Zero ==> r == BiDay::Zero,
        a == BiDay::One && b == BiDay::One ==> r == BiDay::Zero,
{
    match (a, b) {
        (BiDay::Zero, BiDay::Zero) => BiDay::One,
        _ => BiDay::Zero,
    }
}

/// The positions excluded by both of two flag vectors of equal length.
pub fn holes_daycalendar(v1: &[BiDay], v2: &[BiDay]) -> (r: Vec<BiDay>)
    requires
        v1@.len() == v2@.len(),
    ensures
        r@ == pointwise(v1@, v2@, |a: BiDay, b: BiDay| holes_flag(a, b)),
{
    let r = apply_operator(v1, v2, holes_biday_operation);
    assert(r@ =~= pointwise(v1@, v2@, |a: BiDay, b: BiDay| holes_flag(a, b)));
    r
}

/// Cuts `v` to its first `n` flags, or pads it with `k` up to `n` flags.
pub fn complete_biday(n: usize, k: BiDay, v: Vec<BiDay>) -> (r: Vec<BiDay>)
    ensures
        r@ == completed(n as nat, k, v@),
{
    let mut v = v;
    let ghost before = v@;
    if n >= v.len() {
        while v.len() < n
            invariant
                before.len() <= v@.len() <= n,
                v@ == completed(v@.len(), k, before),
            decreases n - v@.len(),
        {
            v.push(k);
            assert(v@ =~= completed(v@.len(), k, before));
        }
        assert(before =~= completed(before.len(), k, before));
        v
    } else {
        v.truncate(n);
        assert(v@ =~= completed(n as nat, k, before));
        v
    }
}

/// Cuts or pads a flag vector with `Zero` so that it has one flag for each
/// day of the month.
pub fn normalize_biday(days: &[BiDay], year: Year, month: Month) -> (r: Vec<BiDay>)
    requires
        supported_year(year as int),
    ensures
        r@ == normalized(days@, year as int, month),
        r@.len() == canonical_days(year as int, month),
{
    let n: usize = match days_in_month(year, month) {
        Some(d) => d as usize,
        None => 0,
    };
    let mut out: Vec<BiDay> = Vec::with_capacity(n);
    let mut i: usize = 0;
    while i < n
        invariant
            i <= n,
            out@ == completed(i as nat, BiDay::Zero, days@),
        decreases n - i,
    {
        let flag = if i < days.len() {
            days[i]
        } else {
            BiDay::Zero
        };
        out.push(flag);
        i += 1;
        assert(out@ =~= completed(i as nat, BiDay::Zero, days@));
    }
    out
}

/// Repeats `pattern` cyclically until `n` flags are produced.
pub fn replicate_pattern(pattern: &[BiDay], n: usize) -> (r: Vec<BiDay>)
    requires
        n > 0 ==> pattern@.len() > 0,
    ensures
        r@ == tiled(pattern@, n as nat),
        r@.len() == n,
        forall|i: int| 0 <= i < n ==> r@[i] == pattern@[i % (pattern@.len() as int)],
{
    let mut result: Vec<BiDay> = Vec::with_capacity(n);
    let pattern_len = pattern.len();
    let mut i: usize = 0;
    while i < n
        invariant
            i <= n,
            pattern_len == pattern@.len(),
            n > 0 ==> pattern_len > 0,
            result@ == tiled(pattern@, i as nat),
        decreases n - i,
    {
        result.push(pattern[i % pattern_len]);
        i += 1;
        assert(result@ =~= tiled(pattern@, i as nat));
    }
    result
}

} // verus!
