use vstd::prelude::*;

verus! {

/// An element type the sorting routines accept: cheap to copy, carrying a
/// decidable total order. `le_spec` is the ordering every contract in this
/// crate is stated against; the proof methods oblige each implementor to
/// show that it really is a total order, and the executable methods decide
/// it at run time.
pub trait SortKey: Sized + Copy {
    /// The ordering relation, `self <= other`.
    spec fn le_spec(self, other: Self) -> bool;

    /// Totality: any two values compare one way or the other.
    proof fn le_total(a: Self, b: Self)
        ensures
            a.le_spec(b) || b.le_spec(a),
    ;

    /// Transitivity.
    proof fn le_transitive(a: Self, b: Self, c: Self)
        requires
            a.le_spec(b),
            b.le_spec(c),
        ensures
            a.le_spec(c),
    ;

    /// Antisymmetry: values below each other are equal.
    proof fn le_antisymmetric(a: Self, b: Self)
        requires
            a.le_spec(b),
            b.le_spec(a),
        ensures
            a == b,
    ;

    /// Decides `self <= other` under the order.
    fn le(self, other: Self) -> (r: bool)
        ensures
            r == self.le_spec(other),
    ;

    /// Decides `self < other`; under a total order that is `!(other <= self)`.
    fn lt(self, other: Self) -> (r: bool)
        ensures
            r == !other.le_spec(self),
    ;
}

/// Non-decreasing by index, under the element type's order.
pub open spec fn sorted<T: SortKey>(s: Seq<T>) -> bool {
    forall|i: int, j: int| 0 <= i <= j < s.len() ==> #[trigger] s[i].le_spec(s[j])
}

/// Sorting is idempotent as a value transformation: any sorted
/// rearrangement of an already-sorted sequence is that sequence itself.
/// Held against the sort's contract (the output is a sorted rearrangement of
/// the input), this says that sorting a sorted sequence returns it
/// unchanged.
pub proof fn lemma_sorted_permutation_equal<T: SortKey>(a: Seq<T>, b: Seq<T>)
    requires
        sorted(a),
        sorted(b),
        a.to_multiset() == b.to_multiset(),
    ensures
        a == b,
{
    let leq = |x: T, y: T| x.le_spec(y);
    assert forall|x: T| #[trigger] leq(x, x) by {
        T::le_total(x, x);
    }
    assert forall|x: T, y: T| #[trigger] leq(x, y) && #[trigger] leq(y, x) implies x == y by {
        T::le_antisymmetric(x, y);
    }
    assert forall|x: T, y: T, z: T|
        #[trigger] leq(x, y) && #[trigger] leq(y, z) implies leq(x, z) by {
        T::le_transitive(x, y, z);
    }
    assert forall|x: T, y: T| #[trigger] leq(x, y) || #[trigger] leq(y, x) by {
        T::le_total(x, y);
    }
    assert(vstd::relations::total_ordering(leq));
    assert forall|i: int, j: int| 0 <= i < j < a.len() implies #[trigger] leq(a[i], a[j]) by {
        assert(a[i].le_spec(a[j]));
    }
    assert forall|i: int, j: int| 0 <= i < j < b.len() implies #[trigger] leq(b[i], b[j]) by {
        assert(b[i].le_spec(b[j]));
    }
    vstd::seq_lib::lemma_sorted_unique(a, b, leq);
    assert(a =~= b);
}

impl SortKey for i32 {
    open spec fn le_spec(self, other: Self) -> bool {
        self <= other
    }

    proof fn le_total(a: Self, b: Self) {
    }

    proof fn le_transitive(a: Self, b: Self, c: Self) {
    }

    proof fn le_antisymmetric(a: Self, b: Self) {
    }

    fn le(self, other: Self) -> (r: bool) {
        self <= other
    }

    fn lt(self, other: Self) -> (r: bool) {
        self < other
    }
}

impl SortKey for i64 {
    open spec fn le_spec(self, other: Self) -> bool {
        self <= other
    }

    proof fn le_total(a: Self, b: Self) {
    }

    proof fn le_transitive(a: Self, b: Self, c: Self) {
    }

    proof fn le_antisymmetric(a: Self, b: Self) {
    }

    fn le(self, other: Self) -> (r: bool) {
        self <= other
    }

    fn lt(self, other: Self) -> (r: bool) {
        self < other
    }
}

impl SortKey for u32 {
    open spec fn le_spec(self, other: Self) -> bool {
        self <= other
    }

    proof fn le_total(a: Self, b: Self) {
    }

    proof fn le_transitive(a: Self, b: Self, c: Self) {
    }

    proof fn le_antisymmetric(a: Self, b: Self) {
    }

    fn le(self, other: Self) -> (r: bool) {
        self <= other
    }

    fn lt(self, other: Self) -> (r: bool) {
        self < other
    }
}

impl SortKey for u64 {
    open spec fn le_spec(self, other: Self) -> bool {
        self <= other
    }

    proof fn le_total(a: Self, b: Self) {
    }

    proof fn le_transitive(a: Self, b: Self, c: Self) {
    }

    proof fn le_antisymmetric(a: Self, b: Self) {
    }

    fn le(self, other: Self) -> (r: bool) {
        self <= other
    }

    fn lt(self, other: Self) -> (r: bool) {
        self < other
    }
}

impl SortKey for usize {
    open spec fn le_spec(self, other: Self) -> bool {
        self <= other
    }

    proof fn le_total(a: Self, b: Self) {
    }

    proof fn le_transitive(a: Self, b: Self, c: Self) {
    }

    proof fn le_antisymmetric(a: Self, b: Self) {
    }

    fn le(self, other: Self) -> (r: bool) {
        self <= other
    }

    fn lt(self, other: Self) -> (r: bool) {
        self < other
    }
}

} // verus!
