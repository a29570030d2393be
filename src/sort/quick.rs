use vstd::prelude::*;
use crate::sort::{
    sorted, sorted_range, sorts, swap_at, perm_range, lemma_perm_widen, lemma_perm_trans,
    lemma_perm_whole, lemma_perm_bounds, lemma_swap_perm,
};

verus! {

/// Quick sort.
pub trait Quick: View<V = Seq<i32>> {
    /// Partitions around the median of the first, middle and last element,
    /// then sorts the two sides.
    fn quick_sort(&mut self)
        ensures
            sorts(final(self)@, old(self)@),
    ;
}

/// Exchanges two elements of `arr[lo..hi]`, a permutation of that range.
fn swap_in(arr: &mut [i32], i: usize, j: usize, Ghost(lo): Ghost<int>, Ghost(hi): Ghost<int>)
    requires
        0 <= lo <= i < hi <= old(arr)@.len(),
        lo <= j < hi,
    ensures
        final(arr)@ == old(arr)@.update(i as int, old(arr)@[j as int]).update(j as int, old(arr)@[i as int]),
        perm_range(final(arr)@, old(arr)@, lo, hi),
{
    proof {
        lemma_swap_perm(arr@, i as int, j as int, lo, hi);
    }
    swap_at(arr, i, j);
}

/// Moves the median of `arr[low]`, `arr[mid]` and `arr[high]` to `high`.
fn move_pivot_to_high(arr: &mut [i32], low: usize, high: usize)
    requires
        low <= high < old(arr)@.len(),
    ensures
        perm_range(final(arr)@, old(arr)@, low as int, high + 1),
{
    let mid = low + (high - low) / 2;
    let pivot = if (arr[low] < arr[mid]) != (arr[low] < arr[high]) {
        low
    } else if (arr[mid] < arr[low]) != (arr[mid] < arr[high]) {
        mid
    } else {
        high
    };
    swap_in(arr, pivot, high, Ghost(low as int), Ghost(high + 1));
}

/// Partitions `arr[low..=high]` around a pivot and returns the pivot's
/// final position: no greater element before it, only greater ones after.
fn partition(arr: &mut [i32], low: usize, high: usize) -> (p: usize)
    requires
        low < high < old(arr)@.len(),
    ensures
        low <= p <= high,
        perm_range(final(arr)@, old(arr)@, low as int, high + 1),
        forall|t: int| low <= t < p ==> final(arr)@[t] <= final(arr)@[p as int],
        forall|t: int| p < t <= high ==> final(arr)@[t] > final(arr)@[p as int],
{
    move_pivot_to_high(arr, low, high);
    let ghost a0 = old(arr)@;
    let pivot = arr[high];
    let mut cur: usize = low;
    let mut i: usize = low;
    while i < high
        invariant
            low <= cur <= i <= high,
            high < arr@.len(),
            arr@[high as int] == pivot,
            perm_range(arr@, a0, low as int, high + 1),
            forall|t: int| low <= t < cur ==> arr@[t] <= pivot,
            forall|t: int| cur <= t < i ==> arr@[t] > pivot,
        decreases high - i,
    {
        if arr[i] <= pivot {
            let ghost before = arr@;
            swap_in(arr, i, cur, Ghost(low as int), Ghost(high + 1));
            proof {
                lemma_perm_trans(arr@, before, a0, low as int, high + 1);
            }
            cur = cur + 1;
        }
        i = i + 1;
    }
    let ghost before = arr@;
    swap_in(arr, cur, high, Ghost(low as int), Ghost(high + 1));
    proof {
        lemma_perm_trans(arr@, before, a0, low as int, high + 1);
    }
    cur
}

/// Sorts `arr[lo..=hi]`: after each partition it recurses into the
/// smaller side and keeps looping on the larger one.
#[verifier::rlimit(100)]
fn qsort(arr: &mut [i32], lo: usize, hi: usize)
    requires
        lo <= hi < old(arr)@.len(),
    ensures
        perm_range(final(arr)@, old(arr)@, lo as int, hi + 1),
        sorted_range(final(arr)@, lo as int, hi + 1),
    decreases hi - lo,
{
    let ghost lo0 = lo as int;
    let ghost hi0 = hi as int;
    let mut low = lo;
    let mut high = hi;
    proof {
        assert(perm_range(arr@, old(arr)@, lo0, hi0 + 1));
    }
    while low < high
        invariant
            lo0 == lo,
            hi0 == hi,
            0 <= lo0 <= low,
            high <= hi0,
            low <= high + 1,
            hi0 < arr@.len(),
            perm_range(arr@, old(arr)@, lo0, hi0 + 1),
            sorted_range(arr@, lo0, low as int),
            sorted_range(arr@, high + 1, hi0 + 1),
            forall|x: int, y: int| lo0 <= x < low <= y <= hi0 ==> arr@[x] <= arr@[y],
            forall|x: int, y: int| lo0 <= x <= high < y <= hi0 ==> arr@[x] <= arr@[y],
        decreases high + 1 - low,
    {
        let ghost a0 = arr@;
        let p = partition(arr, low, high);
        let ghost a1 = arr@;
        let pivot = arr[p];
        proof {
            let below = if low as int > lo0 { a0[low - 1] as int } else { i32::MIN as int };
            let above = if (high as int) < hi0 { a0[high + 1] as int } else { i32::MAX as int };
            assert forall|u: int| #![trigger a0[u]] low <= u < high + 1 implies below <= a0[u] <= above by {}
            lemma_perm_bounds(a1, a0, low as int, high + 1, below, above);
            lemma_perm_widen(a1, a0, low as int, high + 1, lo0, hi0 + 1);
            lemma_perm_trans(a1, a0, old(arr)@, lo0, hi0 + 1);
            assert forall|x: int, y: int| lo0 <= x < low <= y <= hi0 implies a1[x] <= a1[y] by {
                assert(a1[x] == a0[x]);
                if y > high {
                    assert(a1[y] == a0[y]);
                } else {
                    assert(a0[x] <= a0[low - 1]);
                }
            }
            assert forall|x: int, y: int| lo0 <= x <= high < y <= hi0 implies a1[x] <= a1[y] by {
                assert(a1[y] == a0[y]);
                if x < low {
                    assert(a1[x] == a0[x]);
                } else {
                    assert(a0[high + 1] <= a0[y]);
                }
            }
        }
        if p - low < high - p {
            if p > low {
                qsort(arr, low, p - 1);
            }
            let ghost a2 = arr@;
            proof {
                if p > low {
                    lemma_perm_bounds(a2, a1, low as int, p as int, i32::MIN as int, pivot as int);
                    let below = if low as int > lo0 { a1[low - 1] as int } else { i32::MIN as int };
                    assert forall|u: int| #![trigger a1[u]] low <= u < p implies below <= a1[u] <= i32::MAX by {}
                    lemma_perm_bounds(a2, a1, low as int, p as int, below, i32::MAX as int);
                    lemma_perm_widen(a2, a1, low as int, p as int, lo0, hi0 + 1);
                    lemma_perm_trans(a2, a1, old(arr)@, lo0, hi0 + 1);
                } else {
                    assert(a2 == a1);
                }
                assert(a2[p as int] == pivot);
                assert forall|x: int, y: int| lo0 <= x < y < p + 1 implies a2[x] <= a2[y] by {
                    if y < low {
                        assert(a2[x] == a1[x] && a2[y] == a1[y]);
                    } else if x < low {
                        assert(a2[x] == a1[x]);
                        if low as int > lo0 {
                            assert(a1[x] <= a1[low - 1]);
                        }
                    }
                }
                assert forall|x: int, y: int| lo0 <= x < p + 1 <= y <= hi0 implies a2[x] <= a2[y] by {
                    assert(a2[y] == a1[y]);
                    if x < low {
                        assert(a2[x] == a1[x]);
                    } else if x < p {
                        if y > high {
                            assert(a1[p as int] <= a1[y]);
                        }
                    } else {
                        if y > high {
                            assert(a1[p as int] <= a1[y]);
                        }
                    }
                }
                assert forall|x: int, y: int| lo0 <= x <= high < y <= hi0 implies a2[x] <= a2[y] by {
                    assert(a2[y] == a1[y]);
                    if low <= x < p {
                        assert(a1[p as int] <= a1[y]);
                    } else {
                        assert(a2[x] == a1[x]);
                    }
                }
                assert forall|x: int, y: int| high + 1 <= x < y < hi0 + 1 implies a2[x] <= a2[y] by {
                    assert(a2[x] == a1[x] && a2[y] == a1[y]);
                }
            }
            low = p + 1;
        } else {
            if p < high {
                qsort(arr, p + 1, high);
            }
            let ghost a2 = arr@;
            proof {
                if p < high {
                    let above = if (high as int) < hi0 { a1[high + 1] as int } else { i32::MAX as int };
                    assert forall|u: int| #![trigger a1[u]] p + 1 <= u < high + 1 implies pivot <= a1[u] <= above by {}
                    lemma_perm_bounds(a2, a1, p + 1, high + 1, pivot as int, above);
                    lemma_perm_widen(a2, a1, p + 1, high + 1, lo0, hi0 + 1);
                    lemma_perm_trans(a2, a1, old(arr)@, lo0, hi0 + 1);
                } else {
                    assert(a2 == a1);
                }
                assert(a2[p as int] == pivot);
                assert forall|x: int, y: int| p <= x < y < hi0 + 1 implies a2[x] <= a2[y] by {
                    if x > high {
                        assert(a2[x] == a1[x] && a2[y] == a1[y]);
                    } else if y > high {
                        assert(a2[y] == a1[y]);
                        if (high as int) < hi0 {
                            assert(a1[high + 1] <= a1[y]);
                        }
                    }
                }
                assert forall|x: int, y: int| lo0 <= x < low <= y <= hi0 implies a2[x] <= a2[y] by {
                    assert(a2[x] == a1[x]);
                    if p < y <= high {
                        assert(a1[x] <= a1[p as int]);
                    } else {
                        assert(a2[y] == a1[y]);
                    }
                }
                assert forall|x: int, y: int| lo0 <= x < p <= y <= hi0 implies a2[x] <= a2[y] by {
                    assert(a2[x] == a1[x]);
                    if p < y <= high {
                    } else {
                        assert(a2[y] == a1[y]);
                    }
                }
                assert forall|x: int, y: int| lo0 <= x < y < low implies a2[x] <= a2[y] by {
                    assert(a2[x] == a1[x] && a2[y] == a1[y]);
                }
            }
            high = p - 1;
        }
    }
    proof {
        assert forall|x: int, y: int| lo0 <= x < y < hi0 + 1 implies arr@[x] <= arr@[y] by {
            if y < low {
            } else if x < low {
            } else if x > high {
            } else if y > high {
            } else {
                assert(x == y);
            }
        }
    }
}

impl Quick for [i32] {
    fn quick_sort(&mut self) {
        let len = self.len();
        if len == 0 {
            proof {
                assert(sorted(self@));
            }
            return;
        }
        qsort(self, 0, len - 1);
        proof {
            lemma_perm_whole(self@, old(self)@, 0, len as int);
        }
    }
}

} // verus!
