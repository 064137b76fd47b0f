use crate::order::SortKey;
use crate::perm::lemma_slice_len_usize;
use crate::perm::lemma_swap_in_range;
use crate::perm::same_range_elems;
use crate::perm::unchanged_outside;
use vstd::prelude::*;

verus! {

/// Every element of `[low, m]` is below every element of `[m, high]`: the
/// range is split at `m`, and the element there is in its final place.
pub open spec fn split_ordered<T: SortKey>(s: Seq<T>, low: int, m: int, high: int) -> bool {
    forall|i: int, j: int| low <= i <= m && m <= j <= high ==> #[trigger] s[i].le_spec(s[j])
}

/// Exchanges the elements at positions `a` and `b`.
pub fn swap<T: Copy>(array: &mut [T], a: usize, b: usize)
    requires
        a < old(array)@.len(),
        b < old(array)@.len(),
    ensures
        final(array)@ == old(array)@.update(a as int, old(array)@[b as int]).update(
            b as int,
            old(array)@[a as int],
        ),
{
    let tmp = array[a];
    array[a] = array[b];
    array[b] = tmp;
}

/// Partitions `[low, high]` around the element initially at `low` and
/// returns the split position. The pivot is copied out, which leaves a hole;
/// two cursors walk inward from the ends, each out-of-place element is copied
/// over the hole (the hole moving to the place the element came from), and
/// the pivot is written back where the cursors meet.
pub fn sort_one_1<T: SortKey>(v: &mut [T], low: usize, high: usize) -> (m: usize)
    requires
        low <= high,
        high < old(v)@.len(),
    ensures
        low <= m <= high,
        unchanged_outside(old(v)@, final(v)@, low as int, high as int),
        same_range_elems(old(v)@, final(v)@, low as int, high as int),
        split_ordered(final(v)@, low as int, m as int, high as int),
{
    proof {
        lemma_slice_len_usize(v);
    }
    let ghost v0 = v@;
    let mut l = low;
    let mut h = high;
    let mid = v[l];
    proof {
        assert(v@.update(low as int, mid) =~= v@);
    }
    loop
        invariant_except_break
            low <= l <= h <= high,
            high < v@.len(),
            v@.len() == v0.len(),
            unchanged_outside(v0, v@, low as int, high as int),
            same_range_elems(v0, v@.update(l as int, mid), low as int, high as int),
            forall|k: int| low <= k < l ==> #[trigger] v@[k].le_spec(mid),
            forall|k: int| h < k <= high ==> mid.le_spec(#[trigger] v@[k]),
        ensures
            low <= l <= high,
            high < v@.len(),
            v@.len() == v0.len(),
            unchanged_outside(v0, v@, low as int, high as int),
            same_range_elems(v0, v@.update(l as int, mid), low as int, high as int),
            forall|k: int| low <= k < l ==> #[trigger] v@[k].le_spec(mid),
            forall|k: int| l < k <= high ==> mid.le_spec(#[trigger] v@[k]),
        decreases h - l,
    {
        while l < h && mid.le(v[h])
            invariant
                l <= h <= high,
                high < v@.len(),
                forall|k: int| h < k <= high ==> mid.le_spec(#[trigger] v@[k]),
            decreases h,
        {
            h -= 1;
        }
        if l == h {
            break;
        }
        let ghost before = v@;
        let x = v[h];
        v[l] = x;
        proof {
            T::le_total(x, mid);
            let hole_l = before.update(l as int, mid);
            let hole_h = v@.update(h as int, mid);
            assert(hole_h =~= hole_l.update(l as int, hole_l[h as int]).update(
                h as int,
                hole_l[l as int],
            ));
            lemma_swap_in_range(hole_l, hole_h, low as int, high as int, l as int, h as int);
        }
        l += 1;
        while l < h && v[l].le(mid)
            invariant
                low < l <= h,
                h <= high < v@.len(),
                forall|k: int| low <= k < l ==> #[trigger] v@[k].le_spec(mid),
            decreases h - l,
        {
            l += 1;
        }
        if l == h {
            break;
        }
        let ghost before2 = v@;
        let y = v[l];
        v[h] = y;
        proof {
            T::le_total(v@[l as int], mid);
            let hole_h = before2.update(h as int, mid);
            let hole_l = v@.update(l as int, mid);
            assert(hole_l =~= hole_h.update(h as int, hole_h[l as int]).update(
                l as int,
                hole_h[h as int],
            ));
            lemma_swap_in_range(hole_h, hole_l, low as int, high as int, h as int, l as int);
        }
        h -= 1;
    }
    let ghost before3 = v@;
    v[l] = mid;
    proof {
        assert(v@ == before3.update(l as int, mid));
        assert forall|a: int, b: int|
            low <= a <= l && l <= b <= high implies #[trigger] v@[a].le_spec(v@[b]) by {
            if a < l {
                assert(v@[a] == before3[a]);
            } else {
                T::le_total(mid, mid);
            }
            assert(v@[a].le_spec(mid));
            if b == l as int {
                T::le_total(mid, mid);
            } else {
                assert(v@[b] == before3[b]);
            }
            assert(mid.le_spec(v@[b]));
            T::le_transitive(v@[a], mid, v@[b]);
        }
    }
    l
}

/// Partitions `[low, high]` around the element initially at `high` and
/// returns the split position: a single left-to-right scan that moves every
/// element strictly below the pivot in front of a growing boundary, then
/// plants the pivot on the boundary.
#[verifier::loop_isolation(false)]
pub fn sort_one_2<T: SortKey>(v: &mut [T], low: usize, high: usize) -> (m: usize)
    requires
        low <= high,
        high < old(v)@.len(),
    ensures
        low <= m <= high,
        unchanged_outside(old(v)@, final(v)@, low as int, high as int),
        same_range_elems(old(v)@, final(v)@, low as int, high as int),
        split_ordered(final(v)@, low as int, m as int, high as int),
{
    proof {
        lemma_slice_len_usize(v);
    }
    let ghost v0 = v@;
    let mid = v[high];
    let mut i = low;
    let mut j = low;
    while j <= high
        invariant
            low <= i <= j,
            j <= high + 1,
            j == high + 1 ==> i <= high,
            v@.len() == v0.len(),
            v@[high as int] == mid,
            unchanged_outside(v0, v@, low as int, high as int),
            same_range_elems(v0, v@, low as int, high as int),
            forall|k: int| low <= k < i ==> !mid.le_spec(#[trigger] v@[k]),
            forall|k: int| i <= k < j ==> mid.le_spec(#[trigger] v@[k]),
        decreases high + 1 - j,
    {
        let x = v[j];
        if x.lt(mid) {
            proof {
                if j == high {
                    T::le_total(mid, mid);
                    assert(false);
                }
            }
            i += 1;
            let ghost before = v@;
            swap(v, i - 1, j);
            proof {
                lemma_swap_in_range(
                    before,
                    v@,
                    low as int,
                    high as int,
                    (i - 1) as int,
                    j as int,
                );
            }
        }
        j += 1;
    }
    let ghost before = v@;
    swap(v, i, high);
    proof {
        lemma_swap_in_range(before, v@, low as int, high as int, i as int, high as int);
        assert(v@[i as int] == mid);
        assert forall|a: int, b: int|
            low <= a <= i && i <= b <= high implies #[trigger] v@[a].le_spec(v@[b]) by {
            if a < i {
                assert(v@[a] == before[a]);
                assert(!mid.le_spec(v@[a]));
                T::le_total(v@[a], mid);
            } else {
                T::le_total(mid, mid);
            }
            assert(v@[a].le_spec(mid));
            if b == i as int {
                assert(v@[b] == mid);
                T::le_total(mid, mid);
            } else if b == high as int {
                assert(v@[b] == before[i as int]);
                assert(mid.le_spec(v@[b]));
            } else {
                assert(v@[b] == before[b]);
                assert(mid.le_spec(v@[b]));
            }
            T::le_transitive(v@[a], mid, v@[b]);
        }
    }
    i
}

} // verus!
