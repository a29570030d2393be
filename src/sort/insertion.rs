use vstd::prelude::*;
use crate::sort::{sorted, sorted_range, sorts, swap_at};

verus! {

/// Insertion sorts.
pub trait Insertion: View<V = Seq<i32>> {
    /// Sinks each element into the sorted prefix before it.
    fn insertion_sort(&mut self)
        ensures
            sorts(final(self)@, old(self)@),
    ;

    /// Finds each element's place in the sorted prefix by binary search,
    /// after the equal elements already there, and rotates it in.
    fn binary_insertion_sort(&mut self)
        ensures
            sorts(final(self)@, old(self)@),
    ;

    /// Insertion sorts over elements `gap` apart, for gaps of Knuth's
    /// sequence 1, 4, 13, ... below a third of the length, largest first;
    /// the final pass with gap 1 leaves the slice sorted.
    fn shell_sort(&mut self)
        ensures
            sorts(final(self)@, old(self)@),
    ;
}

/// The gaps of Knuth's sequence: 1, 4, 13, 40, ...
pub open spec fn knuth_gap(g: nat) -> bool
    decreases g,
{
    if g <= 1 {
        g == 1
    } else {
        (g - 1) % 3 == 0 && knuth_gap(((g - 1) / 3) as nat)
    }
}

/// One insertion pass over the elements `gap` apart; with gap 1 it sorts.
fn shell_pass(a: &mut [i32], gap: usize)
    requires
        gap >= 1,
    ensures
        final(a)@.to_multiset() == old(a)@.to_multiset(),
        final(a)@.len() == old(a)@.len(),
        gap == 1 ==> sorted(final(a)@),
{
    let len = a.len();
    let mut i: usize = gap;
    while i < len
        invariant
            len == a@.len(),
            gap >= 1,
            a@.to_multiset() == old(a)@.to_multiset(),
            gap == 1 && i >= 1 ==> sorted_range(a@, 0, i as int),
        decreases len - i,
    {
        let mut j: usize = i;
        while j >= gap && a[j - gap] > a[j]
            invariant
                len == a@.len(),
                gap >= 1,
                i < len,
                j <= i,
                a@.to_multiset() == old(a)@.to_multiset(),
                gap == 1 ==> sorted_range(a@, 0, j as int),
                gap == 1 ==> sorted_range(a@, j as int, i + 1),
                gap == 1 && 0 < j < i ==> a@[j - 1] <= a@[j + 1],
            decreases j,
        {
            swap_at(a, j - gap, j);
            j = j - gap;
        }
        i = i + 1;
    }
}

impl Insertion for [i32] {
    fn insertion_sort(&mut self) {
        let len = self.len();
        let ghost orig = self@;
        let mut i: usize = 1;
        if len == 0 {
            return;
        }
        while i < len
            invariant
                len == self@.len(),
                1 <= i <= len,
                self@.to_multiset() == orig.to_multiset(),
                orig == old(self)@,
                sorted_range(self@, 0, i as int),
            decreases len - i,
        {
            let mut j: usize = i;
            while j > 0 && self[j - 1] > self[j]
                invariant
                    len == self@.len(),
                    i < len,
                    j <= i,
                    self@.to_multiset() == orig.to_multiset(),
                    orig == old(self)@,
                    sorted_range(self@, 0, j as int),
                    sorted_range(self@, j as int, i + 1),
                    0 < j < i ==> self@[j - 1] <= self@[j + 1],
                decreases j,
            {
                swap_at(self, j - 1, j);
                j = j - 1;
            }
            i = i + 1;
        }
        proof {
            assert(sorted(self@));
        }
    }

    fn binary_insertion_sort(&mut self) {
        let len = self.len();
        if len == 0 {
            return;
        }
        let ghost orig = self@;
        let mut i: usize = 1;
        while i < len
            invariant
                len == self@.len(),
                1 <= i <= len,
                self@.to_multiset() == orig.to_multiset(),
                orig == old(self)@,
                sorted_range(self@, 0, i as int),
            decreases len - i,
        {
            let base = self[i];
            let mut low: usize = 0;
            let mut high: usize = i;
            while low < high
                invariant
                    len == self@.len(),
                    i < len,
                    low <= high <= i,
                    base == self@[i as int],
                    sorted_range(self@, 0, i as int),
                    forall|t: int| 0 <= t < low ==> self@[t] <= base,
                    forall|t: int| high <= t < i ==> self@[t] > base,
                decreases high - low,
            {
                let mid = low + (high - low) / 2;
                if self[mid] > base {
                    high = mid;
                } else {
                    low = mid + 1;
                }
            }
            let ghost pre = self@;
            let mut k: usize = i;
            while k > low
                invariant
                    len == self@.len(),
                    pre.len() == len,
                    i < len,
                    low <= k <= i,
                    self@[k as int] == base,
                    self@.to_multiset() == orig.to_multiset(),
                    forall|t: int| 0 <= t < k ==> self@[t] == pre[t],
                    forall|t: int| k < t <= i ==> self@[t] == pre[t - 1],
                    forall|t: int| i < t < len ==> self@[t] == pre[t],
                    sorted_range(pre, 0, i as int),
                    forall|t: int| 0 <= t < low ==> pre[t] <= base,
                    forall|t: int| low <= t < i ==> pre[t] > base,
                decreases k - low,
            {
                swap_at(self, k - 1, k);
                k = k - 1;
            }
            proof {
                assert(k == low);
                assert forall|a: int, b: int| 0 <= a < b < i + 1 implies self@[a] <= self@[b] by {
                    if b < low {
                        assert(self@[a] == pre[a] && self@[b] == pre[b]);
                    } else if a < low && b == low {
                        assert(self@[a] == pre[a]);
                    } else if a < low {
                        assert(self@[a] == pre[a]);
                        assert(self@[b] == pre[b - 1]);
                        assert(pre[b - 1] > base);
                    } else if a == low {
                        assert(self@[b] == pre[b - 1]);
                        assert(pre[b - 1] > base);
                    } else {
                        assert(self@[a] == pre[a - 1]);
                        assert(self@[b] == pre[b - 1]);
                        assert(pre[a - 1] <= pre[b - 1]);
                    }
                }
            }
            i = i + 1;
        }
        proof {
            assert(sorted(self@));
        }
    }

    fn shell_sort(&mut self) {
        let len = self.len();
        let mut gap: usize = 1;
        while gap < len / 3
            invariant
                knuth_gap(gap as nat),
                gap == 1 || gap <= len,
            decreases len - gap,
        {
            proof {
                let g = gap * 3 + 1;
                assert((g - 1) % 3 == 0 && (g - 1) / 3 == gap);
            }
            gap = gap * 3 + 1;
        }
        while gap >= 1
            invariant
                gap > 0 ==> knuth_gap(gap as nat),
                gap == 0 ==> sorted(self@),
                self@.to_multiset() == old(self)@.to_multiset(),
            decreases gap,
        {
            shell_pass(self, gap);
            proof {
                if gap > 1 {
                    assert((gap - 1) / 3 >= 1);
                }
            }
            gap = (gap - 1) / 3;
        }
    }
}

} // verus!
