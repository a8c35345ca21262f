//! Sets of small numbers kept as strictly ascending vectors: the canonical
//! form in which sets of years, of months and of (year, month) pairs are
//! built and compared.

use vstd::prelude::*;
use core::hash::{Hash, Hasher};

verus! {

/// Keys in strictly ascending order, so that none occurs twice.
pub open spec fn ascending_keys(s: Seq<u32>) -> bool {
    forall|i: int, j: int| 0 <= i < j < s.len() ==> s[i] < s[j]
}

/// The set of the keys of a sequence.
pub open spec fn key_set(s: Seq<u32>) -> Set<int> {
    Set::new(|x: int| exists|i: int| 0 <= i < s.len() && #[trigger] s[i] == x)
}

/// A strictly ascending sequence is determined by the set of its keys.
pub proof fn lemma_keys_determined(a: Seq<u32>, b: Seq<u32>)
    requires
        ascending_keys(a),
        ascending_keys(b),
        key_set(a) == key_set(b),
    ensures
        a == b,
    decreases a.len(),
{
    if a.len() == 0 {
        if b.len() > 0 {
            assert(key_set(b).contains(b[0] as int));
            assert(key_set(a).contains(b[0] as int));
        }
        assert(a =~= b);
    } else {
        let x = a.last();
        assert(a[a.len() - 1] == x);
        assert(key_set(a).contains(x as int));
        assert(key_set(b).contains(x as int));
        let ib = choose|i: int| 0 <= i < b.len() && #[trigger] b[i] == x as int;
        let y = b.last();
        assert(b[b.len() - 1] == y);
        assert(key_set(b).contains(y as int));
        assert(key_set(a).contains(y as int));
        let ia = choose|i: int| 0 <= i < a.len() && #[trigger] a[i] == y as int;
        assert(x == y) by {
            if ib < b.len() - 1 {
                assert(b[ib] < b[b.len() - 1]);
            }
            if ia < a.len() - 1 {
                assert(a[ia] < a[a.len() - 1]);
            }
        }
        let a0 = a.drop_last();
        let b0 = b.drop_last();
        assert(key_set(a0) =~= key_set(b0)) by {
            assert forall|v: int| key_set(a0).contains(v) implies key_set(b0).contains(v) by {
                let i = choose|i: int| 0 <= i < a0.len() && #[trigger] a0[i] == v;
                assert(a[i] == v);
                assert(a[i] < a[a.len() - 1]);
                assert(key_set(a).contains(v));
                let j = choose|j: int| 0 <= j < b.len() && #[trigger] b[j] == v;
                assert(b0[j] == v);
            }
            assert forall|v: int| key_set(b0).contains(v) implies key_set(a0).contains(v) by {
                let i = choose|i: int| 0 <= i < b0.len() && #[trigger] b0[i] == v;
                assert(b[i] == v);
                assert(b[i] < b[b.len() - 1]);
                assert(key_set(b).contains(v));
                let j = choose|j: int| 0 <= j < a.len() && #[trigger] a[j] == v;
                assert(a0[j] == v);
            }
        }
        lemma_keys_determined(a0, b0);
        assert(a =~= a0.push(x));
        assert(b =~= b0.push(y));
    }
}

/// Returns the index of the first key that is not less than `k`.
pub fn lower_bound(v: &Vec<u32>, k: u32) -> (pos: usize)
    requires
        ascending_keys(v@),
    ensures
        pos <= v@.len(),
        forall|i: int| 0 <= i < pos ==> v@[i] < k,
        forall|i: int| pos <= i < v@.len() ==> v@[i] >= k,
{
    let mut lo: usize = 0;
    let mut hi: usize = v.len();
    while lo < hi
        invariant
            lo <= hi <= v@.len(),
            ascending_keys(v@),
            forall|i: int| 0 <= i < lo ==> v@[i] < k,
            forall|i: int| hi <= i < v@.len() ==> v@[i] >= k,
        decreases hi - lo,
    {
        let mid = lo + (hi - lo) / 2;
        if v[mid] < k {
            assert forall|i: int| 0 <= i < mid + 1 implies v@[i] < k by {
                if i < mid {
                    assert(v@[i] < v@[mid as int]);
                }
            }
            lo = mid + 1;
        } else {
            assert forall|i: int| mid <= i < v@.len() implies v@[i] >= k by {
                if i > mid {
                    assert(v@[mid as int] < v@[i]);
                }
            }
            hi = mid;
        }
    }
    lo
}

/// Returns whether `k` is one of the keys.
pub fn contains_key(v: &Vec<u32>, k: u32) -> (r: bool)
    requires
        ascending_keys(v@),
    ensures
        r == key_set(v@).contains(k as int),
{
    let pos = lower_bound(v, k);
    if pos < v.len() && v[pos] == k {
        assert(v@[pos as int] == k as int);
        true
    } else {
        assert forall|i: int| 0 <= i < v@.len() implies #[trigger] v@[i] != k as int by {
            if i > pos {
                assert(v@[pos as int] < v@[i]);
            }
        }
        false
    }
}

/// Adds `k` to the keys, at its place in the order, unless it is one of
/// them already.
pub fn insert_key(v: &mut Vec<u32>, k: u32)
    requires
        ascending_keys(old(v)@),
    ensures
        ascending_keys(final(v)@),
        key_set(final(v)@) == key_set(old(v)@).insert(k as int),
{
    let pos = lower_bound(v, k);
    let ghost before = v@;
    if pos < v.len() && v[pos] == k {
        assert(key_set(before).contains(k as int)) by {
            assert(before[pos as int] == k as int);
        }
        assert(key_set(before) =~= key_set(before).insert(k as int));
    } else {
        v.insert(pos, k);
        proof {
            let after = v@;
            assert(after =~= before.insert(pos as int, k));
            assert forall|i: int, j: int| 0 <= i < j < after.len() implies after[i] < after[j] by {
                let bi = if i < pos { i } else { i - 1 };
                let bj = if j < pos { j } else { j - 1 };
                if i != pos && j != pos {
                    assert(before[bi] < before[bj]);
                }
            }
            assert(key_set(after) =~= key_set(before).insert(k as int)) by {
                assert forall|x: int| key_set(after).contains(x) implies key_set(before).insert(
                    k as int,
                ).contains(x) by {
                    let i = choose|i: int| 0 <= i < after.len() && #[trigger] after[i] == x;
                    if i != pos {
                        let bi = if i < pos { i } else { i - 1 };
                        assert(before[bi] == x);
                    }
                }
                assert forall|x: int|
                    key_set(before).insert(k as int).contains(x) implies key_set(after).contains(
                    x,
                ) by {
                    if x == k as int {
                        assert(after[pos as int] == x);
                    } else {
                        let i = choose|i: int| 0 <= i < before.len() && #[trigger] before[i] == x;
                        let ai = if i < pos { i } else { i + 1 };
                        assert(after[ai] == x);
                    }
                }
            }
        }
    }
}

/// Returns whether two key vectors are the same sequence.
pub fn same_keys(a: &Vec<u32>, b: &Vec<u32>) -> (r: bool)
    ensures
        r == (a@ == b@),
{
    if a.len() != b.len() {
        return false;
    }
    let mut i: usize = 0;
    while i < a.len()
        invariant
            a@.len() == b@.len(),
            i <= a@.len(),
            forall|j: int| 0 <= j < i ==> a@[j] == b@[j],
        decreases a@.len() - i,
    {
        if a[i] != b[i] {
            return false;
        }
        i += 1;
    }
    assert(a@ =~= b@);
    true
}

/// Calls `Hash::hash` of the key vector, which feeds the length and the
/// keys, in order, to the hasher. What reaches the hasher depends on the
/// keys alone.
#[verifier::external_body]
pub(crate) fn feed_keys<H: Hasher>(keys: &Vec<u32>, state: &mut H) {
    keys.hash(state);
}

} // verus!
