//! Locating a value on a sorted table axis.
//!
//! Axis values are given by their order keys (see `order`). The search
//! reports the pair of grid indices between which the value lies; the
//! interpolation weight between them is the caller's arithmetic.
use vstd::prelude::*;

verus! {

/// The keys never decrease along the axis.
pub open spec fn is_sorted(keys: Seq<u64>) -> bool {
    forall|i: int, j: int| 0 <= i <= j < keys.len() ==> keys[i] <= keys[j]
}

/// `(i0, i1)` is the bracket of `key` on `keys`:
/// at or below the first grid value both indices are the first index; at or
/// above the last both are the last; a value found on the grid gives a
/// matching index twice; otherwise the two neighbouring indices that enclose
/// the value.
pub open spec fn is_bracket(keys: Seq<u64>, key: u64, i0: int, i1: int) -> bool {
    let last = keys.len() - 1;
    if key <= keys[0] {
        i0 == 0 && i1 == 0
    } else if key >= keys[last] {
        i0 == last && i1 == last
    } else if keys.contains(key) {
        0 <= i0 < keys.len() && i1 == i0 && keys[i0] == key
    } else {
        0 <= i0 && i1 == i0 + 1 && i1 < keys.len() && keys[i0] < key < keys[i1]
    }
}

/// `(i0, i1)` encloses `key` locally: clamped to the ends as for a
/// bracket, and otherwise either one index holding `key` or two neighbouring
/// indices whose keys are below and above `key`.
pub open spec fn is_local_bracket(keys: Seq<u64>, key: u64, i0: int, i1: int) -> bool {
    let last = keys.len() - 1;
    if key <= keys[0] {
        i0 == 0 && i1 == 0
    } else if key >= keys[last] {
        i0 == last && i1 == last
    } else {
        ||| 0 <= i0 < keys.len() && i1 == i0 && keys[i0] == key
        ||| 0 <= i0 && i1 == i0 + 1 && i1 < keys.len() && keys[i0] < key < keys[i1]
    }
}

/// Finds the grid indices that enclose `key` on the axis `keys`, by binary
/// search between the first and the last grid value. On a sorted axis the
/// result is the bracket of `key`; on any axis it is a local bracket, so
/// both indices are valid.
pub fn find_indices(keys: &Vec<u64>, key: u64) -> (res: (usize, usize))
    requires
        keys.len() > 0,
    ensures
        is_local_bracket(keys@, key, res.0 as int, res.1 as int),
        is_sorted(keys@) ==> is_bracket(keys@, key, res.0 as int, res.1 as int),
{
    if key <= keys[0] {
        return (0, 0);
    }
    let last = keys.len() - 1;
    if key >= keys[last] {
        return (last, last);
    }
    // Lower bound: on a sorted axis, the first index whose key is not below
    // `key`; on any axis, an index whose key is not below `key` and whose
    // predecessor's key is.
    let mut lo: usize = 0;
    let mut hi: usize = last;
    while lo < hi
        invariant
            0 <= lo <= hi <= last,
            last == keys.len() - 1,
            keys[0] < key,
            lo == 0 || keys[lo - 1] < key,
            keys[hi as int] >= key,
            is_sorted(keys@) ==> forall|i: int| 0 <= i < lo ==> keys[i] < key,
        decreases hi - lo,
    {
        let mid = lo + (hi - lo) / 2;
        if keys[mid] < key {
            proof {
                if is_sorted(keys@) {
                    assert forall|i: int| 0 <= i < mid + 1 implies keys[i] < key by {
                        assert(keys[i] <= keys[mid as int]);
                    }
                }
            }
            lo = mid + 1;
        } else {
            hi = mid;
        }
    }
    // keys[lo] >= key > keys[lo - 1], and lo >= 1 because keys[0] < key.
    if keys[lo] == key {
        (lo, lo)
    } else {
        proof {
            assert(lo >= 1);
            if is_sorted(keys@) {
                assert(!keys@.contains(key)) by {
                    if keys@.contains(key) {
                        let k = choose|k: int| 0 <= k < keys@.len() && keys@[k] == key;
                        if k >= lo {
                            assert(keys@[lo as int] <= keys@[k]);
                        }
                    }
                }
            }
        }
        (lo - 1, lo)
    }
}

/// The keys strictly increase along the axis.
pub open spec fn is_strictly_increasing(keys: Seq<u64>) -> bool {
    forall|i: int, j: int| 0 <= i < j < keys.len() ==> keys[i] < keys[j]
}

/// On a strictly increasing axis a value has one bracket only: the search
/// result is determined by the axis and the value.
pub proof fn bracket_is_unique(keys: Seq<u64>, key: u64, a0: int, a1: int, b0: int, b1: int)
    requires
        keys.len() > 0,
        is_strictly_increasing(keys),
        is_bracket(keys, key, a0, a1),
        is_bracket(keys, key, b0, b1),
    ensures
        a0 == b0,
        a1 == b1,
{
    let last = keys.len() - 1;
    if key <= keys[0] || key >= keys[last] {
    } else if keys.contains(key) {
        if a0 < b0 {
            assert(keys[a0] < keys[b0]);
        } else if b0 < a0 {
            assert(keys[b0] < keys[a0]);
        }
    } else {
        if a0 < b0 {
            assert(keys[a1] <= keys[b0]);
        } else if b0 < a0 {
            assert(keys[b1] <= keys[a0]);
        }
    }
}

} // verus!
