use vstd::prelude::*;
use crate::sort::{sorted, sorted_range, sorts, perm_range, lemma_perm_widen, lemma_perm_whole};

verus! {

broadcast use vstd::seq_lib::group_to_multiset_ensures;

/// Merge sorts, through a scratch buffer as long as the input.
pub trait Merge: View<V = Seq<i32>> {
    /// Sorts each half recursively, then merges the halves.
    fn merge_sort_recu(&mut self)
        ensures
            sorts(final(self)@, old(self)@),
    ;

    /// Merges neighbouring sorted runs of width 1, 2, 4, ... bottom up.
    fn merge_sort_iter(&mut self)
        ensures
            sorts(final(self)@, old(self)@),
    ;
}

/// The `b`-th run of width `w` of `s` is sorted (the last run may be short).
pub open spec fn block_sorted(s: Seq<i32>, w: int, b: int) -> bool {
    let lo = b * w;
    let hi = if lo + w < s.len() { lo + w } else { s.len() as int };
    sorted_range(s, lo, hi)
}

/// Every run of width `w` of `s` is sorted.
pub open spec fn runs_sorted(s: Seq<i32>, w: int) -> bool {
    forall|b: int| 0 <= b && b * w < s.len() ==> #[trigger] block_sorted(s, w, b)
}

/// Merges the sorted runs `low..=mid` and `mid + 1..=high` of `arr` through
/// `tmp`; on equal elements the one of the right run goes first.
fn merge(arr: &mut [i32], tmp: &mut Vec<i32>, low: usize, mid: usize, high: usize)
    requires
        low <= mid < high < old(arr)@.len(),
        old(tmp)@.len() == old(arr)@.len(),
        sorted_range(old(arr)@, low as int, mid + 1),
        sorted_range(old(arr)@, mid + 1, high + 1),
    ensures
        final(tmp)@.len() == old(tmp)@.len(),
        perm_range(final(arr)@, old(arr)@, low as int, high + 1),
        sorted_range(final(arr)@, low as int, high + 1),
{
    let ghost a = arr@;
    let mut l: usize = low;
    let mut h: usize = mid + 1;
    let mut t: usize = low;
    while l <= mid || h <= high
        invariant
            arr@ == a,
            tmp@.len() == a.len(),
            low <= mid < high < a.len(),
            sorted_range(a, low as int, mid + 1),
            sorted_range(a, mid + 1, high + 1),
            low <= l <= mid + 1,
            mid + 1 <= h <= high + 1,
            t == l + h - mid - 1,
            sorted_range(tmp@, low as int, t as int),
            tmp@.subrange(low as int, t as int).to_multiset() == a.subrange(low as int, l as int).to_multiset().add(
                a.subrange(mid + 1, h as int).to_multiset(),
            ),
            t > low && l <= mid ==> tmp@[t - 1] <= a[l as int],
            t > low && h <= high ==> tmp@[t - 1] <= a[h as int],
        decreases high + 1 - t,
    {
        let ghost before = tmp@;
        let take_left = if l > mid {
            false
        } else if h > high {
            true
        } else {
            arr[l] < arr[h]
        };
        if take_left {
            let x = arr[l];
            tmp.set(t, x);
            proof {
                assert(tmp@.subrange(low as int, t + 1) =~= before.subrange(low as int, t as int).push(x));
                assert(a.subrange(low as int, l + 1) =~= a.subrange(low as int, l as int).push(x));
            }
            l = l + 1;
        } else {
            let x = arr[h];
            tmp.set(t, x);
            proof {
                assert(tmp@.subrange(low as int, t + 1) =~= before.subrange(low as int, t as int).push(x));
                assert(a.subrange(mid + 1, h + 1) =~= a.subrange(mid + 1, h as int).push(x));
            }
            h = h + 1;
        }
        t = t + 1;
    }
    let ghost merged = tmp@;
    let mut i: usize = low;
    while i <= high
        invariant
            tmp@ == merged,
            merged.len() == a.len(),
            sorted_range(merged, low as int, high + 1),
            arr@.len() == a.len(),
            low <= i <= high + 1,
            high < a.len(),
            forall|k: int| 0 <= k < a.len() && !(low <= k < i) ==> arr@[k] == a[k],
            forall|k: int| low <= k < i ==> arr@[k] == merged[k],
        decreases high + 1 - i,
    {
        arr[i] = tmp[i];
        i = i + 1;
    }
    proof {
        assert(arr@.subrange(low as int, high + 1) =~= merged.subrange(low as int, high + 1));
        assert forall|x: int, y: int| low <= x < y < high + 1 implies arr@[x] <= arr@[y] by {
            assert(arr@[x] == merged[x] && arr@[y] == merged[y]);
        }
        assert(a.subrange(low as int, high + 1) =~= a.subrange(low as int, mid + 1) + a.subrange(mid + 1, high + 1));
        vstd::seq_lib::lemma_multiset_commutative(a.subrange(low as int, mid + 1), a.subrange(mid + 1, high + 1));
    }
}

/// Sorts `arr[low..=high]` recursively.
fn msort_recu(arr: &mut [i32], tmp: &mut Vec<i32>, low: usize, high: usize)
    requires
        low <= high < old(arr)@.len(),
        old(tmp)@.len() == old(arr)@.len(),
    ensures
        final(tmp)@.len() == old(tmp)@.len(),
        perm_range(final(arr)@, old(arr)@, low as int, high + 1),
        sorted_range(final(arr)@, low as int, high + 1),
    decreases high - low,
{
    if low < high {
        let mid = low + (high - low) / 2;
        let ghost a0 = arr@;
        msort_recu(arr, tmp, low, mid);
        let ghost a1 = arr@;
        msort_recu(arr, tmp, mid + 1, high);
        let ghost a2 = arr@;
        proof {
            assert(sorted_range(a2, low as int, mid + 1)) by {
                assert forall|x: int, y: int| low <= x < y < mid + 1 implies a2[x] <= a2[y] by {
                    assert(a2[x] == a1[x] && a2[y] == a1[y]);
                }
            }
        }
        merge(arr, tmp, low, mid, high);
        proof {
            lemma_perm_widen(a1, a0, low as int, mid + 1, low as int, high + 1);
            lemma_perm_widen(a2, a1, mid + 1, high + 1, low as int, high + 1);
        }
    } else {
        proof {
            assert(perm_range(arr@, old(arr)@, low as int, high + 1));
        }
    }
}

/// Sorts `arr` by merging runs of doubling width.
fn msort_iter(arr: &mut [i32], tmp: &mut Vec<i32>, len: usize)
    requires
        len == old(arr)@.len(),
        len > 0,
        old(tmp)@.len() == len,
    ensures
        perm_range(final(arr)@, old(arr)@, 0, len as int),
        sorted(final(arr)@),
{
    let mut i: usize = 1;
    proof {
        assert forall|b: int| 0 <= b && b * 1 < arr@.len() implies #[trigger] block_sorted(arr@, 1, b) by {}
        assert(perm_range(arr@, old(arr)@, 0, len as int));
    }
    while i < len
        invariant
            len == arr@.len(),
            tmp@.len() == len,
            1 <= i <= len,
            perm_range(arr@, old(arr)@, 0, len as int),
            runs_sorted(arr@, i as int),
        decreases len - i,
    {
        let mut low: usize = 0;
        let ghost mut c: int = 0;
        while i < len - low
            invariant
                len == arr@.len(),
                tmp@.len() == len,
                1 <= i < len,
                low <= len,
                c >= 0,
                low < len ==> low as int == 2 * i * c,
                low == len ==> len <= 2 * i * c,
                perm_range(arr@, old(arr)@, 0, len as int),
                forall|b: int| 0 <= b < c ==> #[trigger] block_sorted(arr@, 2 * i, b),
                forall|b: int| 2 * c <= b && b * i < len ==> #[trigger] block_sorted(arr@, i as int, b),
            decreases len - low,
        {
            let mid = low + i - 1;
            let high = if i < len - mid { mid + i } else { len - 1 };
            let ghost a1 = arr@;
            proof {
                assert((2 * c) * i == low) by (nonlinear_arith)
                    requires low as int == 2 * i * c;
                assert((2 * c + 1) * i == low + i) by (nonlinear_arith)
                    requires low as int == 2 * i * c;
                assert(block_sorted(a1, i as int, 2 * c));
                assert(block_sorted(a1, i as int, 2 * c + 1));
            }
            merge(arr, tmp, low, mid, high);
            proof {
                let a2 = arr@;
                lemma_perm_widen(a2, a1, low as int, high + 1, 0, len as int);
                assert forall|b: int| 0 <= b < c + 1 implies #[trigger] block_sorted(a2, 2 * i, b) by {
                    if b < c {
                        assert(block_sorted(a1, 2 * i, b));
                        assert(b * (2 * i) + 2 * i <= low) by (nonlinear_arith)
                            requires low as int == 2 * i * c, b < c, i >= 1;
                        let lo = b * (2 * i);
                        let hi = if lo + 2 * i < a1.len() { lo + 2 * i } else { a1.len() as int };
                        assert forall|x: int, y: int| lo <= x < y < hi implies a2[x] <= a2[y] by {
                            assert(a2[x] == a1[x] && a2[y] == a1[y]);
                        }
                    } else {
                        assert(b * (2 * i) == low) by (nonlinear_arith)
                            requires low as int == 2 * i * c, b == c;
                    }
                }
                assert forall|b: int| 2 * (c + 1) <= b && b * i < len implies #[trigger] block_sorted(a2, i as int, b) by {
                    assert(block_sorted(a1, i as int, b));
                    assert(b * i >= low + 2 * i) by (nonlinear_arith)
                        requires low as int == 2 * i * c, b >= 2 * c + 2, i >= 1;
                    let lo = b * i;
                    let hi = if lo + i < a1.len() { lo + i } else { a1.len() as int };
                    assert forall|x: int, y: int| lo <= x < y < hi implies a2[x] <= a2[y] by {
                        assert(a2[x] == a1[x] && a2[y] == a1[y]);
                    }
                }
                assert(high + 1 == low + 2 * i || high + 1 == len);
                c = c + 1;
            }
            low = high + 1;
            proof {
                assert(2 * i * c == 2 * i * (c - 1) + 2 * i) by (nonlinear_arith);
            }
        }
        proof {
            assert forall|b: int| 0 <= b && b * (2 * i) < len implies #[trigger] block_sorted(arr@, 2 * i, b) by {
                if b >= c {
                    assert(b * (2 * i) >= 2 * i * c) by (nonlinear_arith)
                        requires b >= c, i >= 1;
                    if b > c {
                        assert(b * (2 * i) >= low + 2 * i) by (nonlinear_arith)
                            requires low as int == 2 * i * c, b >= c + 1, i >= 1;
                    }
                    assert(b * (2 * i) == low) by (nonlinear_arith)
                        requires low as int == 2 * i * c, b == c;
                    assert((2 * c) * i == low) by (nonlinear_arith)
                        requires low as int == 2 * i * c;
                    assert(block_sorted(arr@, i as int, 2 * c));
                }
            }
        }
        if i >= len - i {
            proof {
                assert(block_sorted(arr@, 2 * i, 0));
                assert forall|b: int| 0 <= b && b * len < arr@.len() implies #[trigger] block_sorted(arr@, len as int, b) by {
                    assert(b == 0) by (nonlinear_arith)
                        requires b * len < len, b >= 0, len > 0;
                }
            }
            i = len;
        } else {
            i = i * 2;
        }
    }
    proof {
        assert(block_sorted(arr@, i as int, 0));
    }
}

impl Merge for [i32] {
    fn merge_sort_recu(&mut self) {
        let len = self.len();
        if len == 0 {
            proof {
                assert(sorted(self@));
            }
            return;
        }
        let mut tmp = vec![self[0]; len];
        msort_recu(self, &mut tmp, 0, len - 1);
        proof {
            lemma_perm_whole(self@, old(self)@, 0, len as int);
        }
    }

    fn merge_sort_iter(&mut self) {
        let len = self.len();
        if len == 0 {
            proof {
                assert(sorted(self@));
            }
            return;
        }
        let mut tmp = vec![self[0]; len];
        msort_iter(self, &mut tmp, len);
        proof {
            lemma_perm_whole(self@, old(self)@, 0, len as int);
        }
    }
}

} // verus!
