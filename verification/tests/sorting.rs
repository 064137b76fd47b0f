use worklist_sort::add_intervals;
use worklist_sort::sort_1;
use worklist_sort::sort_2;
use worklist_sort::sort_one_1;
use worklist_sort::sort_one_2;
use worklist_sort::swap;
use worklist_sort::Interval;

fn assert_partitioned(v: &[i32], mid: usize) {
    for i in 0..=mid {
        for j in mid..v.len() {
            assert!(v[i] <= v[j], "\nexpected: {:?} [{}] <= [{}]\nmid={}", v, i, j, mid);
        }
    }
}

#[test]
fn sort_one_upper_half() {
    let input = [7, 7, 8, 34, 1];
    let mut result_1 = input;
    let mid = sort_one_1(&mut result_1, 0, input.len() - 1);
    assert_partitioned(&result_1, mid);
    let mut result_2 = input;
    let mid = sort_one_2(&mut result_2, 0, input.len() - 1);
    assert_partitioned(&result_2, mid);
}

#[test]
fn sort_simple_2() {
    let input = [1, 0];
    let mut result = input;
    sort_1(&mut result);
    assert_eq!([0, 1], result, "\n input: `{:?}`", input);
}

#[test]
fn sort_simple_4() {
    let input = [2, 2, 1, 1];
    let mut result = input;
    sort_1(&mut result);
    assert_eq!([1, 1, 2, 2], result, "\n input: `{:?}`", input);
}

#[test]
fn sort_simple_6() {
    let input = [3, 3, 2, 2, 1, 1];
    let mut result = input;
    sort_1(&mut result);
    assert_eq!([1, 1, 2, 2, 3, 3], result, "\n input: `{:?}`", input);
}

#[test]
fn sort_intermixed_6() {
    let input = [3, 1, 2, 3, 2, 1];
    let mut result = input;
    sort_1(&mut result);
    assert_eq!([1, 1, 2, 2, 3, 3], result, "\n input: `{:?}`", input);
}

#[test]
fn sort_upper_half() {
    let input = [7, 7, 8, 34, 1];
    let mut result = input;
    sort_1(&mut result);
    assert_eq!([1, 7, 7, 8, 34], result, "\n input: `{:?}`", input);
}

#[test]
fn sort_2_scenarios() {
    let mut a = [1, 0];
    sort_2(&mut a);
    assert_eq!([0, 1], a);
    let mut b = [2, 2, 1, 1];
    sort_2(&mut b);
    assert_eq!([1, 1, 2, 2], b);
    let mut c = [3, 1, 2, 3, 2, 1];
    sort_2(&mut c);
    assert_eq!([1, 1, 2, 2, 3, 3], c);
    let mut d = [7, 7, 8, 34, 1];
    sort_2(&mut d);
    assert_eq!([1, 7, 7, 8, 34], d);
}

#[test]
fn sort_already_sorted_unchanged() {
    let mut a = [1, 2, 2, 3, 5, 8];
    sort_1(&mut a);
    assert_eq!([1, 2, 2, 3, 5, 8], a);
    sort_1(&mut a);
    assert_eq!([1, 2, 2, 3, 5, 8], a);
    let mut b = [1, 2, 2, 3, 5, 8];
    sort_2(&mut b);
    assert_eq!([1, 2, 2, 3, 5, 8], b);
    sort_2(&mut b);
    assert_eq!([1, 2, 2, 3, 5, 8], b);
}

#[test]
fn sort_preserves_multiset() {
    let input: [i32; 7] = [4, -1, 4, 0, 2, 4, -1];
    let mut result = input;
    sort_1(&mut result);
    for x in [-1, 0, 2, 4] {
        let before = input.iter().filter(|&&y| y == x).count();
        let after = result.iter().filter(|&&y| y == x).count();
        assert_eq!(before, after, "multiplicity of {} changed", x);
    }
    let mut result_b = input;
    sort_2(&mut result_b);
    assert_eq!(result, result_b);
}

#[test]
fn sort_boundary_lengths() {
    let mut empty: [i32; 0] = [];
    sort_1(&mut empty);
    sort_2(&mut empty);
    assert_eq!(0, empty.len());
    let mut one = [42];
    sort_1(&mut one);
    assert_eq!([42], one);
    sort_2(&mut one);
    assert_eq!([42], one);
}

#[test]
fn sort_one_singleton_range() {
    let mut v = [9, 5, 7];
    let mid = sort_one_1(&mut v, 1, 1);
    assert_eq!(1, mid);
    assert_eq!([9, 5, 7], v);
    let mid = sort_one_2(&mut v, 1, 1);
    assert_eq!(1, mid);
    assert_eq!([9, 5, 7], v);
}

#[test]
fn swap_exchanges() {
    let mut v = [10, 20, 30];
    swap(&mut v, 0, 2);
    assert_eq!([30, 20, 10], v);
    swap(&mut v, 1, 1);
    assert_eq!([30, 20, 10], v);
}

#[test]
fn add_intervals_pushes_both_children() {
    let mut stack: Vec<Interval> = Vec::new();
    add_intervals(&mut stack, 2, &Interval { low: 0, high: 4 });
    assert_eq!(2, stack.len());
    assert_eq!(Interval { low: 0, high: 1 }, stack[0]);
    assert_eq!(Interval { low: 3, high: 4 }, stack[1]);
}

#[test]
fn add_intervals_skips_small_children() {
    let mut stack: Vec<Interval> = Vec::new();
    add_intervals(&mut stack, 0, &Interval { low: 0, high: 4 });
    assert_eq!(1, stack.len());
    assert_eq!(Interval { low: 1, high: 4 }, stack[0]);
    let mut stack: Vec<Interval> = Vec::new();
    add_intervals(&mut stack, 1, &Interval { low: 0, high: 4 });
    assert_eq!(1, stack.len());
    assert_eq!(Interval { low: 2, high: 4 }, stack[0]);
    let mut stack: Vec<Interval> = Vec::new();
    add_intervals(&mut stack, 1, &Interval { low: 0, high: 2 });
    assert_eq!(0, stack.len());
}

#[test]
fn sort_via_strategy() {
    let mut a = [5, 3, 9, 3];
    worklist_sort::__sort(&mut a, worklist_sort::Strategy::A);
    assert_eq!([3, 3, 5, 9], a);
    let mut b = [5, 3, 9, 3];
    worklist_sort::__sort(&mut b, worklist_sort::Strategy::B);
    assert_eq!([3, 3, 5, 9], b);
}
