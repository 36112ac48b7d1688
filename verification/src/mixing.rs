//! Convective mixing zones.
//!
//! After each burning step every shell is marked convective or not; each
//! maximal run of consecutive convective shells is one mixing zone, whose
//! composition is then made uniform by a mass-weighted average.
use vstd::prelude::*;

verus! {

/// `[start, end)` is a maximal run of convective shells.
pub open spec fn is_zone(flags: Seq<bool>, start: int, end: int) -> bool {
    &&& 0 <= start < end <= flags.len()
    &&& forall|i: int| start <= i < end ==> flags[i]
    &&& start == 0 || !flags[start - 1]
    &&& end == flags.len() || !flags[end]
}

/// Shell `i` lies in the half-open range `zone`.
pub open spec fn in_zone(zone: (usize, usize), i: int) -> bool {
    zone.0 <= i < zone.1
}

/// `zones` lists, from the centre outwards, every maximal run of convective
/// shells, each once.
pub open spec fn are_zones(flags: Seq<bool>, zones: Seq<(usize, usize)>) -> bool {
    &&& forall|k: int| 0 <= k < zones.len() ==> is_zone(flags, zones[k].0 as int, zones[k].1 as int)
    &&& forall|k: int, l: int| 0 <= k < l < zones.len() ==> zones[k].1 < zones[l].0
    &&& forall|i: int|
        0 <= i < flags.len() && flags[i] ==> exists|k: int|
            0 <= k < zones.len() && #[trigger] in_zone(zones[k], i)
}

/// Splits the shells into mixing zones: the maximal runs of consecutive
/// convective shells, as half-open index ranges, from the centre outwards.
pub fn convective_zones(flags: &Vec<bool>) -> (zones: Vec<(usize, usize)>)
    ensures
        are_zones(flags@, zones@),
{
    let n = flags.len();
    let mut zones: Vec<(usize, usize)> = Vec::new();
    let mut start: usize = 0;
    while start < n
        invariant
            n == flags.len(),
            start <= n,
            forall|k: int| 0 <= k < zones.len() ==> is_zone(flags@, zones@[k].0 as int, zones@[k].1 as int),
            forall|k: int, l: int| 0 <= k < l < zones.len() ==> zones@[k].1 < zones@[l].0,
            forall|k: int| 0 <= k < zones.len() ==> zones@[k].1 <= start,
            forall|i: int|
                0 <= i < start && flags@[i] ==> exists|k: int|
                    0 <= k < zones.len() && #[trigger] in_zone(zones@[k], i),
            start < n && flags@[start as int] ==> (start == 0 || !flags@[start - 1]),
        decreases n - start,
    {
        if flags[start] {
            let mut end = start;
            while end < n && flags[end]
                invariant
                    n == flags.len(),
                    start <= end <= n,
                    forall|i: int| start <= i < end ==> flags@[i],
                decreases n - end,
            {
                end += 1;
            }
            proof {
                if zones.len() > 0 {
                    let last = zones@[zones.len() - 1];
                    assert(last.1 < start) by {
                        assert(last.1 <= start);
                        if last.1 == start {
                            assert(!flags@[start as int]);
                        }
                    }
                }
            }
            let ghost old_zones = zones@;
            zones.push((start, end));
            proof {
                assert forall|i: int| 0 <= i < end && flags@[i] implies exists|k: int|
                    0 <= k < zones.len() && #[trigger] in_zone(zones@[k], i) by {
                    if i < start {
                        let k = choose|k: int| 0 <= k < old_zones.len() && #[trigger] in_zone(old_zones[k], i);
                        assert(zones@[k] == old_zones[k]);
                    } else {
                        assert(zones@[zones.len() - 1] == (start, end));
                        assert(in_zone(zones@[zones.len() - 1], i));
                    }
                }
            }
            start = end;
        } else {
            start += 1;
        }
    }
    zones
}

/// Every convective shell lies in exactly one mixing zone, and no other
/// shell lies in any: the zones partition the convective shells.
pub proof fn zones_partition_convective_shells(flags: Seq<bool>, zones: Seq<(usize, usize)>, i: int)
    requires
        are_zones(flags, zones),
        0 <= i < flags.len(),
    ensures
        flags[i] <==> exists|k: int| 0 <= k < zones.len() && #[trigger] in_zone(zones[k], i),
        forall|k: int, l: int|
            0 <= k < zones.len() && 0 <= l < zones.len() && #[trigger] in_zone(zones[k], i)
                && #[trigger] in_zone(zones[l], i) ==> k == l,
{
    if exists|k: int| 0 <= k < zones.len() && #[trigger] in_zone(zones[k], i) {
        let k = choose|k: int| 0 <= k < zones.len() && #[trigger] in_zone(zones[k], i);
        assert(is_zone(flags, zones[k].0 as int, zones[k].1 as int));
    }
    assert forall|k: int, l: int|
        0 <= k < zones.len() && 0 <= l < zones.len() && #[trigger] in_zone(zones[k], i)
            && #[trigger] in_zone(zones[l], i) implies k == l by {
        if k < l {
            assert(zones[k].1 < zones[l].0);
        } else if l < k {
            assert(zones[l].1 < zones[k].0);
        }
    }
}

} // verus!
