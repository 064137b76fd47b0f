use crate::order::sorted;
use crate::order::SortKey;
use crate::partition::sort_one_1;
use crate::partition::sort_one_2;
use crate::partition::split_ordered;
use crate::perm::lemma_range_elem_source;
use crate::perm::lemma_range_elems_whole;
use crate::perm::lemma_slice_len_usize;
use crate::perm::same_range_elems;
use crate::perm::unchanged_outside;
use vstd::prelude::*;

verus! {

/// An inclusive index range `[low, high]` of the array still awaiting
/// partitioning. Created by the driver (the initial full range) and by
/// partition results; popped exactly once each; never mutated after creation.
#[derive(Clone, Copy, Debug, PartialEq, Eq, Structural)]
pub struct Interval {
    pub low: usize,
    pub high: usize,
}

/// Which partition routine the driver runs on each range it pops.
#[derive(Clone, Copy, Debug, PartialEq, Eq, Structural)]
pub enum Strategy {
    /// Pivot taken from the low end: `sort_one_1`.
    A,
    /// Pivot taken from the high end: `sort_one_2`.
    B,
}

/// A well-formed pending range: at least two elements, inside an array of
/// length `n`. Singleton and empty ranges are never pushed.
pub open spec fn iv_wf(iv: Interval, n: int) -> bool {
    iv.low < iv.high && iv.high < n
}

pub open spec fn stack_wf(ivs: Seq<Interval>, n: int) -> bool {
    forall|k: int| 0 <= k < ivs.len() ==> iv_wf(#[trigger] ivs[k], n)
}

/// The two ranges share no position.
pub open spec fn iv_disjoint(a: Interval, b: Interval) -> bool {
    a.high < b.low || b.high < a.low
}

/// Pending ranges never overlap.
pub open spec fn stack_disjoint(ivs: Seq<Interval>) -> bool {
    forall|k1: int, k2: int|
        0 <= k1 < k2 < ivs.len() ==> iv_disjoint(#[trigger] ivs[k1], #[trigger] ivs[k2])
}

/// The range spans both positions (for `i <= j`: both lie inside it).
pub open spec fn spans(iv: Interval, i: int, j: int) -> bool {
    iv.low <= i && j <= iv.high
}

/// Some single pending range spans both positions.
pub open spec fn covered(ivs: Seq<Interval>, i: int, j: int) -> bool {
    exists|k: int| 0 <= k < ivs.len() && spans(#[trigger] ivs[k], i, j)
}

/// Sorted except inside the pending ranges: every pair of positions that no
/// single pending range spans is already in order. With an empty work-list
/// this is exactly sortedness.
pub open spec fn ordered_outside<T: SortKey>(ivs: Seq<Interval>, s: Seq<T>) -> bool {
    forall|i: int, j: int|
        0 <= i <= j < s.len() && !covered(ivs, i, j) ==> #[trigger] s[i].le_spec(s[j])
}

/// How many elements a pending range holds beyond its first. The sum of
/// these over the work-list is the driver's termination measure.
pub open spec fn iv_weight(iv: Interval) -> nat {
    if iv.low <= iv.high {
        (iv.high - iv.low) as nat
    } else {
        0
    }
}

pub open spec fn stack_weight(ivs: Seq<Interval>) -> nat
    decreases ivs.len(),
{
    if ivs.len() == 0 {
        0
    } else {
        stack_weight(ivs.drop_last()) + iv_weight(ivs.last())
    }
}

/// The pending sub-ranges a split at `middle` leaves of the range `last`:
/// the part in front of the split, then the part behind it, each kept only
/// when it holds at least two elements.
pub open spec fn children_of(middle: int, last: Interval) -> Seq<Interval> {
    let left = if middle > 0 && last.low < middle - 1 {
        seq![Interval { low: last.low, high: (middle - 1) as usize }]
    } else {
        Seq::<Interval>::empty()
    };
    let right = if last.high > middle + 1 {
        seq![Interval { low: (middle + 1) as usize, high: last.high }]
    } else {
        Seq::<Interval>::empty()
    };
    left + right
}

proof fn lemma_stack_weight_push(ivs: Seq<Interval>, iv: Interval)
    ensures
        stack_weight(ivs.push(iv)) == stack_weight(ivs) + iv_weight(iv),
{
    assert(ivs.push(iv).drop_last() =~= ivs);
    assert(ivs.push(iv).last() == iv);
}

/// A work-list of well-formed ranges weighs at least one per entry; in
/// particular, weight zero means the work-list is empty.
proof fn lemma_stack_weight_at_least_len(ivs: Seq<Interval>)
    requires
        forall|k: int| 0 <= k < ivs.len() ==> (#[trigger] ivs[k]).low < ivs[k].high,
    ensures
        stack_weight(ivs) >= ivs.len(),
    decreases ivs.len(),
{
    if ivs.len() > 0 {
        lemma_stack_weight_at_least_len(ivs.drop_last());
    }
}

/// One driver step: after the range `last` is popped and partitioned at `m`,
/// pushing the guarded sub-ranges keeps every work-list invariant, and the
/// measure falls below what the popped range alone weighed.
proof fn lemma_driver_step<T: SortKey>(
    rest: Seq<Interval>,
    last: Interval,
    s0: Seq<T>,
    s1: Seq<T>,
    m: int,
)
    requires
        iv_wf(last, s0.len() as int),
        stack_wf(rest, s0.len() as int),
        stack_disjoint(rest.push(last)),
        ordered_outside(rest.push(last), s0),
        last.low <= m <= last.high,
        s1.len() == s0.len(),
        unchanged_outside(s0, s1, last.low as int, last.high as int),
        same_range_elems(s0, s1, last.low as int, last.high as int),
        split_ordered(s1, last.low as int, m, last.high as int),
    ensures
        s1.to_multiset() == s0.to_multiset(),
        stack_wf(rest + children_of(m, last), s1.len() as int),
        stack_disjoint(rest + children_of(m, last)),
        ordered_outside(rest + children_of(m, last), s1),
        stack_weight(rest + children_of(m, last)) + 1 <= stack_weight(rest) + iv_weight(last),
{
    let n = s0.len() as int;
    let lo = last.low as int;
    let hi = last.high as int;
    let ch = children_of(m, last);
    let new_stack = rest + ch;
    let prev_stack = rest.push(last);

    lemma_range_elems_whole(s0, s1, lo, hi);

    // Well-formedness of what is pushed.
    assert forall|k: int| 0 <= k < new_stack.len() implies iv_wf(#[trigger] new_stack[k], n) by {
        if k < rest.len() {
            assert(iv_wf(rest[k], n));
        } else {
            assert(new_stack[k] == ch[k - rest.len()]);
        }
    }

    // Every child lies inside the popped range; ranges in `rest` avoid the
    // popped range, so they avoid every child too.
    assert forall|k: int| 0 <= k < rest.len() implies iv_disjoint(
        #[trigger] rest[k],
        last,
    ) by {
        assert(prev_stack[k] == rest[k]);
        assert(prev_stack[rest.len() as int] == last);
        assert(iv_disjoint(prev_stack[k], prev_stack[rest.len() as int]));
    }
    assert forall|k1: int, k2: int| 0 <= k1 < k2 < new_stack.len() implies iv_disjoint(
        #[trigger] new_stack[k1],
        #[trigger] new_stack[k2],
    ) by {
        if k2 < rest.len() {
            assert(prev_stack[k1] == rest[k1]);
            assert(prev_stack[k2] == rest[k2]);
            assert(iv_disjoint(prev_stack[k1], prev_stack[k2]));
        } else if k1 < rest.len() {
            assert(new_stack[k2] == ch[k2 - rest.len()]);
            assert(iv_disjoint(rest[k1], last));
        } else {
            assert(new_stack[k1] == ch[k1 - rest.len()]);
            assert(new_stack[k2] == ch[k2 - rest.len()]);
        }
    }

    // The measure falls: the children together weigh less than the popped
    // range did.
    if ch.len() == 0 {
        assert(new_stack =~= rest);
    } else if ch.len() == 1 {
        assert(new_stack =~= rest.push(ch[0]));
        lemma_stack_weight_push(rest, ch[0]);
    } else {
        assert(new_stack =~= rest.push(ch[0]).push(ch[1]));
        lemma_stack_weight_push(rest, ch[0]);
        lemma_stack_weight_push(rest.push(ch[0]), ch[1]);
    }

    // Order outside the new pending ranges.
    assert forall|i: int, j: int|
        0 <= i <= j < s1.len() && !covered(new_stack, i, j) implies #[trigger] s1[i].le_spec(
        s1[j],
    ) by {
        if lo <= i && j <= hi {
            // Both positions inside the popped range.
            if i <= m && m <= j {
                assert(s1[i].le_spec(s1[j]));
            } else if j < m {
                if m > 0 && lo < m - 1 {
                    let left = Interval { low: last.low, high: (m - 1) as usize };
                    assert(new_stack[rest.len() as int] == left);
                    assert(spans(new_stack[rest.len() as int], i, j));
                    assert(covered(new_stack, i, j));
                    assert(false);
                } else {
                    assert(i == j);
                    T::le_total(s1[i], s1[i]);
                }
            } else {
                if hi > m + 1 {
                    let right = Interval { low: (m + 1) as usize, high: last.high };
                    assert(new_stack[new_stack.len() - 1] == right);
                    assert(spans(new_stack[new_stack.len() - 1], i, j));
                    assert(covered(new_stack, i, j));
                    assert(false);
                } else {
                    assert(i == j);
                    T::le_total(s1[i], s1[i]);
                }
            }
        } else if lo <= i && i <= hi {
            // `i` inside the popped range, `j` beyond it.
            let k = lemma_range_elem_source(s0, s1, lo, hi, i);
            assert(s1[j] == s0[j]);
            assert(!covered(prev_stack, k, j)) by {
                if covered(prev_stack, k, j) {
                    let w = choose|w: int|
                        0 <= w < prev_stack.len() && spans(#[trigger] prev_stack[w], k, j);
                    assert(w < rest.len());
                    assert(iv_disjoint(rest[w], last));
                    assert(false);
                }
            }
            assert(s0[k].le_spec(s0[j]));
        } else if lo <= j && j <= hi {
            // `i` in front of the popped range, `j` inside it.
            let k = lemma_range_elem_source(s0, s1, lo, hi, j);
            assert(s1[i] == s0[i]);
            assert(!covered(prev_stack, i, k)) by {
                if covered(prev_stack, i, k) {
                    let w = choose|w: int|
                        0 <= w < prev_stack.len() && spans(#[trigger] prev_stack[w], i, k);
                    assert(w < rest.len());
                    assert(iv_disjoint(rest[w], last));
                    assert(false);
                }
            }
            assert(s0[i].le_spec(s0[k]));
        } else {
            // Neither position inside the popped range.
            assert(s1[i] == s0[i]);
            assert(s1[j] == s0[j]);
            assert(!covered(prev_stack, i, j)) by {
                if covered(prev_stack, i, j) {
                    let w = choose|w: int|
                        0 <= w < prev_stack.len() && spans(#[trigger] prev_stack[w], i, j);
                    assert(w < rest.len());
                    assert(new_stack[w] == rest[w]);
                    assert(spans(new_stack[w], i, j));
                    assert(covered(new_stack, i, j));
                    assert(false);
                }
            }
            assert(s0[i].le_spec(s0[j]));
        }
    }
}

/// Pushes onto the work-list the sub-ranges that partitioning `last` at
/// `middle` leaves pending: the part in front of the split and the part
/// behind it, each only when it holds at least two elements. The guards also
/// keep `middle - 1` from underflowing when the split lands at position zero.
pub fn add_intervals(stack: &mut Vec<Interval>, middle: usize, last: &Interval)
    requires
        last.low <= middle <= last.high,
        last.high < usize::MAX,
    ensures
        final(stack)@ == old(stack)@ + children_of(middle as int, *last),
{
    let ghost s0 = stack@;
    if middle > 0 && last.low < middle - 1 {
        let iv = Interval { low: last.low, high: middle - 1 };
        stack.push(iv);
    }
    if last.high > middle + 1 {
        let iv = Interval { low: middle + 1, high: last.high };
        stack.push(iv);
    }
    proof {
        assert(stack@ =~= s0 + children_of(middle as int, *last));
    }
}

/// Sorts the array in place. The driver seeds a work-list with the full
/// range, then repeatedly pops a pending range, partitions it with the
/// chosen strategy, and pushes back the sub-ranges the split leaves, until
/// nothing is pending. A pass counter seeded from the length bounds the loop
/// from above; the work-list provably empties before the counter runs out,
/// so the counter never cuts a sort short.
pub fn __sort<T: SortKey>(v: &mut [T], strategy: Strategy)
    ensures
        final(v)@.to_multiset() == old(v)@.to_multiset(),
        final(v)@.len() == old(v)@.len(),
        sorted(final(v)@),
        old(v)@.len() <= 1 ==> final(v)@ == old(v)@,
{
    proof {
        lemma_slice_len_usize(v);
    }
    let n = v.len();
    if n <= 1 {
        proof {
            assert forall|i: int, j: int| 0 <= i <= j < v@.len() implies #[trigger] v@[i].le_spec(
                v@[j],
            ) by {
                T::le_total(v@[i], v@[j]);
            }
        }
        return;
    }
    let ghost v0 = v@;
    let mut intervals: Vec<Interval> = Vec::new();
    intervals.push(Interval { low: 0, high: n - 1 });
    let mut max = n;
    proof {
        lemma_stack_weight_push(Seq::<Interval>::empty(), Interval { low: 0, high: (n - 1) as usize });
        assert forall|i: int, j: int|
            0 <= i <= j < v@.len() && !covered(intervals@, i, j) implies #[trigger] v@[i].le_spec(
            v@[j],
        ) by {
            assert(spans(intervals@[0], i, j));
            assert(covered(intervals@, i, j));
        }
    }
    loop
        invariant
            v0 == old(v)@,
            2 <= n == v0.len(),
            v@.len() == v0.len(),
            v@.to_multiset() == v0.to_multiset(),
            stack_wf(intervals@, n as int),
            stack_disjoint(intervals@),
            ordered_outside(intervals@, v@),
            stack_weight(intervals@) < max,
        decreases max,
    {
        max -= 1;
        if max == 0 {
            proof {
                lemma_stack_weight_at_least_len(intervals@);
                assert(intervals@.len() == 0);
            }
            return;
        }
        let ghost prev_stack = intervals@;
        match intervals.pop() {
            Some(i) => {
                let ghost rest = intervals@;
                proof {
                    assert(prev_stack =~= rest.push(i));
                    lemma_stack_weight_push(rest, i);
                }
                let ghost pre = v@;
                let mid = match strategy {
                    Strategy::A => sort_one_1(v, i.low, i.high),
                    Strategy::B => sort_one_2(v, i.low, i.high),
                };
                add_intervals(&mut intervals, mid, &i);
                proof {
                    lemma_driver_step(rest, i, pre, v@, mid as int);
                }
            },
            None => {
                return;
            },
        }
    }
}

/// Sorts in place with strategy A: pivot taken from the low end of each
/// range. The result is a rearrangement of the input, non-decreasing by
/// index; inputs of length zero or one come back unchanged.
pub fn sort_1<T: SortKey>(v: &mut [T])
    ensures
        final(v)@.to_multiset() == old(v)@.to_multiset(),
        final(v)@.len() == old(v)@.len(),
        sorted(final(v)@),
        old(v)@.len() <= 1 ==> final(v)@ == old(v)@,
{
    __sort(v, Strategy::A)
}

/// Sorts in place with strategy B: pivot taken from the high end of each
/// range. The result is a rearrangement of the input, non-decreasing by
/// index; inputs of length zero or one come back unchanged.
pub fn sort_2<T: SortKey>(v: &mut [T])
    ensures
        final(v)@.to_multiset() == old(v)@.to_multiset(),
        final(v)@.len() == old(v)@.len(),
        sorted(final(v)@),
        old(v)@.len() <= 1 ==> final(v)@ == old(v)@,
{
    __sort(v, Strategy::B)
}

} // verus!
