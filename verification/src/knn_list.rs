//! The capped, ascending-by-distance candidate list that the
//! nearest-neighbour searches maintain, shared by both index variants.
//!
//! An entry pairs a squared distance with the identity of a point (a storage
//! position for the owning index, a borrowed-slice index for the borrowing
//! one).  The list never exceeds `k` entries; a candidate that would rank
//! past a full list is rejected, and one that ranks within it pushes the
//! current worst entry out.

use vstd::prelude::*;

verus! {

/// Entries ascend by squared distance.
pub open spec fn entries_sorted(r: Seq<(u128, usize)>) -> bool {
    forall|a: int, b: int| 0 <= a < b < r.len() ==> (#[trigger] r[a]).0 <= (#[trigger] r[b]).0
}

/// No point identity occurs twice.
pub open spec fn distinct_ids(r: Seq<(u128, usize)>) -> bool {
    forall|a: int, b: int| 0 <= a < b < r.len() ==> (#[trigger] r[a]).1 != (#[trigger] r[b]).1
}

/// The list reports the point with identity `id`.
pub open spec fn reports(r: Seq<(u128, usize)>, id: usize) -> bool {
    exists|i: int| 0 <= i < r.len() && (#[trigger] r[i]).1 == id
}

/// The distance of the last, i.e. worst, entry of a non-empty list.
pub open spec fn worst(r: Seq<(u128, usize)>) -> u128 {
    r[r.len() - 1].0
}

/// First position whose distance exceeds `dst`, by linear scan: a candidate
/// with distance `dst` is inserted after all existing entries at the same
/// distance.
fn upper_pos(result: &Vec<(u128, usize)>, dst: u128) -> (pos: usize)
    requires
        entries_sorted(result@),
    ensures
        pos <= result@.len(),
        forall|i: int| 0 <= i < pos ==> (#[trigger] result@[i]).0 <= dst,
        forall|i: int| pos <= i < result@.len() ==> (#[trigger] result@[i]).0 > dst,
{
    let mut pos: usize = 0;
    while pos < result.len() && result[pos].0 <= dst
        invariant
            pos <= result@.len(),
            entries_sorted(result@),
            forall|i: int| 0 <= i < pos ==> (#[trigger] result@[i]).0 <= dst,
        decreases result@.len() - pos,
    {
        pos = pos + 1;
    }
    pos
}

/// First position whose distance is at least `dst`, by binary search over
/// the sorted distances.
fn lower_pos(result: &Vec<(u128, usize)>, dst: u128) -> (pos: usize)
    requires
        entries_sorted(result@),
    ensures
        pos <= result@.len(),
        forall|i: int| 0 <= i < pos ==> (#[trigger] result@[i]).0 < dst,
        forall|i: int| pos <= i < result@.len() ==> (#[trigger] result@[i]).0 >= dst,
{
    let mut lo: usize = 0;
    let mut hi: usize = result.len();
    while lo < hi
        invariant
            lo <= hi <= result@.len(),
            entries_sorted(result@),
            forall|i: int| 0 <= i < lo ==> (#[trigger] result@[i]).0 < dst,
            forall|i: int| hi <= i < result@.len() ==> (#[trigger] result@[i]).0 >= dst,
        decreases hi - lo,
    {
        let mid = lo + (hi - lo) / 2;
        if result[mid].0 < dst {
            lo = mid + 1;
        } else {
            hi = mid;
        }
    }
    lo
}

/// Offer the candidate `(dst, v)` to the list.  Below the cap it is always
/// inserted at its ascending position; at the cap it either replaces the
/// current worst entry or, ranking past it, leaves the list unchanged.  For
/// small caps the position is found by linear scan, otherwise by binary
/// search; both keep the same contract.
pub(crate) fn knn_try_insert(result: &mut Vec<(u128, usize)>, k: usize, dst: u128, v: usize)
    requires
        1 <= k,
        old(result)@.len() <= k,
        entries_sorted(old(result)@),
        distinct_ids(old(result)@),
        !reports(old(result)@, v),
    ensures
        entries_sorted(final(result)@),
        distinct_ids(final(result)@),
        final(result)@.len() == if old(result)@.len() < k {
            old(result)@.len() + 1
        } else {
            k as nat
        },
        forall|i: int|
            0 <= i < final(result)@.len() ==> final(result)@[i] == (dst, v) || exists|j: int|
                0 <= j < old(result)@.len() && final(result)@[i] == #[trigger] old(result)@[j],
        forall|id: usize|
            reports(final(result)@, id) ==> id == v || reports(old(result)@, id),
        old(result)@.len() < k ==> reports(final(result)@, v) && (forall|id: usize|
            reports(old(result)@, id) ==> reports(final(result)@, id)),
        forall|j: int|
            0 <= j < old(result)@.len() && !reports(
                final(result)@,
                (#[trigger] old(result)@[j]).1,
            ) ==> final(result)@.len() == k && old(result)@[j].0 >= worst(final(result)@),
        !reports(final(result)@, v) ==> final(result)@.len() == k && dst >= worst(final(result)@),
        old(result)@.len() == k ==> worst(final(result)@) <= old(result)@[k - 1].0,
{
    let ghost orig = result@;
    let len = result.len();
    if len == 0 {
        result.push((dst, v));
        proof {
            assert(result@[0] == (dst, v));
        }
    } else if len < k {
        let pos = upper_pos(result, dst);
        result.insert(pos, (dst, v));
        proof {
            lemma_inserted(orig, result@, pos as int, dst, v);
        }
    } else {
        let pos = if k <= 20 {
            upper_pos(result, dst)
        } else {
            lower_pos(result, dst)
        };
        result.insert(pos, (dst, v));
        let ghost grown = result@;
        let dropped = result.pop();
        proof {
            lemma_inserted(orig, grown, pos as int, dst, v);
            assert(result@ =~= grown.subrange(0, grown.len() - 1));
            if pos < len {
                assert(grown[len as int] == orig[len - 1]);
                assert forall|i: int| 0 <= i < result@.len() implies result@[i] == grown[i] by {}
                assert(reports(result@, v)) by {
                    assert(result@[pos as int] == (dst, v));
                }
                assert forall|j: int|
                    0 <= j < orig.len() && !reports(result@, (#[trigger] orig[j]).1) implies (
                orig[j]).0 >= worst(result@) by {
                    if j < len - 1 {
                        let at = if j < pos {
                            j
                        } else {
                            j + 1
                        };
                        assert(grown[at] == orig[j]);
                        assert(at < result@.len());
                        assert(result@[at] == orig[j]);
                        assert(!reports(result@, orig[j].1));
                        assert(false);
                    } else {
                        assert(orig[j].0 >= result@[result@.len() - 1].0);
                    }
                }
            } else {
                assert(result@ =~= orig);
                assert(!reports(result@, v));
                assert(orig[len - 1].0 <= dst);
            }
        }
    }
}

/// What `Seq::insert` at a sorted position yields, spelled out for the
/// proofs above.
proof fn lemma_inserted(orig: Seq<(u128, usize)>, grown: Seq<(u128, usize)>, pos: int, dst: u128, v: usize)
    requires
        entries_sorted(orig),
        distinct_ids(orig),
        !reports(orig, v),
        0 <= pos <= orig.len(),
        grown == orig.insert(pos, (dst, v)),
        forall|i: int| 0 <= i < pos ==> (#[trigger] orig[i]).0 <= dst,
        forall|i: int| pos <= i < orig.len() ==> (#[trigger] orig[i]).0 >= dst,
    ensures
        grown.len() == orig.len() + 1,
        grown[pos] == (dst, v),
        forall|i: int| 0 <= i < pos ==> grown[i] == #[trigger] orig[i],
        forall|i: int| pos < i < grown.len() ==> grown[i] == #[trigger] orig[i - 1],
        entries_sorted(grown),
        distinct_ids(grown),
        reports(grown, v),
        forall|id: usize| reports(orig, id) ==> reports(grown, id),
        forall|id: usize| reports(grown, id) ==> id == v || reports(orig, id),
        forall|i: int|
            0 <= i < grown.len() ==> grown[i] == (dst, v) || exists|j: int|
                0 <= j < orig.len() && grown[i] == #[trigger] orig[j],
{
    orig.insert_ensures(pos, (dst, v));
    assert(grown[pos] == (dst, v));
    assert forall|a: int, b: int| 0 <= a < b < grown.len() implies (#[trigger] grown[a]).0
        <= (#[trigger] grown[b]).0 by {
        if a < pos && b == pos {
        } else if a == pos && b > pos {
        } else if a < pos && b > pos {
            assert(grown[a] == orig[a]);
            assert(grown[b] == orig[b - 1]);
        }
    }
    assert forall|a: int, b: int| 0 <= a < b < grown.len() implies (#[trigger] grown[a]).1
        != (#[trigger] grown[b]).1 by {
        if a == pos {
            assert(grown[b] == orig[b - 1]);
            assert(!(exists|i: int| 0 <= i < orig.len() && (#[trigger] orig[i]).1 == v));
            assert(orig[b - 1].1 != v);
        } else if b == pos {
            assert(grown[a] == orig[a]);
            assert(orig[a].1 != v);
        }
    }
    assert forall|id: usize| reports(orig, id) implies reports(grown, id) by {
        let i = choose|i: int| 0 <= i < orig.len() && (#[trigger] orig[i]).1 == id;
        if i < pos {
            assert(grown[i].1 == id);
        } else {
            assert(grown[i + 1].1 == id);
        }
    }
    assert forall|id: usize| reports(grown, id) implies id == v || reports(orig, id) by {
        let i = choose|i: int| 0 <= i < grown.len() && (#[trigger] grown[i]).1 == id;
        if i < pos {
            assert(orig[i].1 == id);
        } else if i > pos {
            assert(orig[i - 1].1 == id);
        }
    }
}

} // verus!
