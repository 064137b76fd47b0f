use vstd::prelude::*;

verus! {

/// The two sequences have the same length and agree at every index outside
/// the inclusive range `[low, high]`.
pub open spec fn unchanged_outside<T>(s0: Seq<T>, s1: Seq<T>, low: int, high: int) -> bool {
    &&& s1.len() == s0.len()
    &&& forall|k: int| 0 <= k < s0.len() && !(low <= k <= high) ==> s1[k] == s0[k]
}

/// The inclusive range `[low, high]` holds the same elements in both
/// sequences, with multiplicity: the range of `s1` is a rearrangement of the
/// range of `s0`.
pub open spec fn same_range_elems<T>(s0: Seq<T>, s1: Seq<T>, low: int, high: int) -> bool {
    s1.subrange(low, high + 1).to_multiset() == s0.subrange(low, high + 1).to_multiset()
}

/// A slice's length fits in `usize`.
pub proof fn lemma_slice_len_usize<T>(v: &[T])
    ensures
        v@.len() <= usize::MAX,
{
    broadcast use vstd::slice::axiom_spec_len;

    assert(vstd::slice::spec_slice_len(v) == v@.len());
}

/// Exchanging the elements at two positions leaves a sequence's multiset of
/// elements unchanged.
pub proof fn lemma_swap_to_multiset<T>(s: Seq<T>, a: int, b: int)
    requires
        0 <= a < s.len(),
        0 <= b < s.len(),
    ensures
        s.update(a, s[b]).update(b, s[a]).to_multiset() == s.to_multiset(),
{
    broadcast use vstd::seq_lib::group_to_multiset_ensures;
    broadcast use vstd::multiset::group_multiset_axioms;

    if a == b {
        assert(s.update(a, s[b]).update(b, s[a]) =~= s);
    } else {
        let m = s.to_multiset();
        let s1 = s.update(a, s[b]);
        let s2 = s1.update(b, s[a]);
        vstd::seq_lib::to_multiset_update(s, a, s[b]);
        vstd::seq_lib::to_multiset_update(s1, b, s[a]);
        assert(s1[b] == s[b]);
        assert(s.contains(s[a]));
        assert(m.count(s[a]) > 0);
        assert(s2.to_multiset() =~= m);
    }
}

/// An in-range swap rearranges the range and touches nothing outside it.
pub proof fn lemma_swap_in_range<T>(s0: Seq<T>, s1: Seq<T>, low: int, high: int, a: int, b: int)
    requires
        0 <= low <= a <= high < s0.len(),
        low <= b <= high,
        s1 == s0.update(a, s0[b]).update(b, s0[a]),
    ensures
        unchanged_outside(s0, s1, low, high),
        same_range_elems(s0, s1, low, high),
{
    let r0 = s0.subrange(low, high + 1);
    let r1 = s1.subrange(low, high + 1);
    assert(r1 =~= r0.update(a - low, r0[b - low]).update(b - low, r0[a - low]));
    lemma_swap_to_multiset(r0, a - low, b - low);
}

/// A sequence that rearranges a range of another and agrees with it outside
/// that range holds the same elements overall, with multiplicity.
pub proof fn lemma_range_elems_whole<T>(s0: Seq<T>, s1: Seq<T>, low: int, high: int)
    requires
        0 <= low <= high < s0.len(),
        unchanged_outside(s0, s1, low, high),
        same_range_elems(s0, s1, low, high),
    ensures
        s1.to_multiset() == s0.to_multiset(),
{
    broadcast use vstd::seq_lib::lemma_multiset_commutative;

    let n = s0.len() as int;
    let p0 = s0.subrange(0, low);
    let r0 = s0.subrange(low, high + 1);
    let t0 = s0.subrange(high + 1, n);
    let p1 = s1.subrange(0, low);
    let r1 = s1.subrange(low, high + 1);
    let t1 = s1.subrange(high + 1, n);
    assert(p1 =~= p0);
    assert(t1 =~= t0);
    assert(s0 =~= p0 + r0 + t0);
    assert(s1 =~= p1 + r1 + t1);
    assert(s0.to_multiset() == (p0 + r0).to_multiset().add(t0.to_multiset()));
    assert((p0 + r0).to_multiset() == p0.to_multiset().add(r0.to_multiset()));
    assert(s1.to_multiset() == (p1 + r1).to_multiset().add(t1.to_multiset()));
    assert((p1 + r1).to_multiset() == p1.to_multiset().add(r1.to_multiset()));
}

/// Each element a rearranged range holds already stood somewhere in the same
/// range before: returns such a source position.
pub proof fn lemma_range_elem_source<T>(s0: Seq<T>, s1: Seq<T>, low: int, high: int, i: int) -> (k:
    int)
    requires
        0 <= low <= i <= high < s0.len(),
        s1.len() == s0.len(),
        same_range_elems(s0, s1, low, high),
    ensures
        low <= k <= high,
        s0[k] == s1[i],
{
    broadcast use vstd::seq_lib::group_to_multiset_ensures;

    let r0 = s0.subrange(low, high + 1);
    let r1 = s1.subrange(low, high + 1);
    assert(r1[i - low] == s1[i]);
    assert(r1.contains(s1[i]));
    assert(r1.to_multiset().count(s1[i]) > 0);
    assert(r0.contains(s1[i]));
    let j = choose|j: int| 0 <= j < r0.len() && r0[j] == s1[i];
    assert(s0[j + low] == r0[j]);
    j + low
}

} // verus!
