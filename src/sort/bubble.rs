use vstd::prelude::*;
use crate::sort::{sorted, sorted_range, sorts, swap_at};

verus! {

/// Exchange sorts of adjacent elements.
pub trait Bubble: View<V = Seq<i32>> {
    /// Passes from front to back, each carrying the greatest remaining
    /// element to the end; stops after a pass without an exchange.
    fn bubble_sort(&mut self)
        ensures
            sorts(final(self)@, old(self)@),
    ;

    /// Alternates forward and backward passes over a shrinking window; stops
    /// after a pass without an exchange.
    fn cocktail_sort(&mut self)
        ensures
            sorts(final(self)@, old(self)@),
    ;
}

impl Bubble for [i32] {
    fn bubble_sort(&mut self) {
        let len = self.len();
        let ghost orig = self@;
        let mut i: usize = 0;
        while i < len
            invariant
                len == self@.len(),
                i <= len,
                self@.to_multiset() == orig.to_multiset(),
                orig == old(self)@,
                sorted_range(self@, len - i, len as int),
                forall|a: int, b: int| 0 <= a < len - i <= b < len ==> self@[a] <= self@[b],
            decreases len - i,
        {
            let mut is_swapped = false;
            let mut j: usize = 0;
            while j + 1 < len - i
                invariant
                    len == self@.len(),
                    i < len,
                    j < len - i,
                    self@.to_multiset() == orig.to_multiset(),
                    orig == old(self)@,
                    sorted_range(self@, len - i, len as int),
                    forall|a: int, b: int| 0 <= a < len - i <= b < len ==> self@[a] <= self@[b],
                    forall|t: int| 0 <= t <= j ==> self@[t] <= self@[j as int],
                    !is_swapped ==> sorted_range(self@, 0, j + 1),
                decreases len - i - j,
            {
                if self[j] > self[j + 1] {
                    swap_at(self, j, j + 1);
                    is_swapped = true;
                }
                j = j + 1;
            }
            if !is_swapped {
                proof {
                    assert forall|a: int, b: int| 0 <= a < b < len implies self@[a] <= self@[b] by {
                        if b < len - i {
                        } else if a >= len - i {
                        } else {
                        }
                    }
                }
                return;
            }
            i = i + 1;
        }
        proof {
            assert(sorted(self@));
        }
    }

    fn cocktail_sort(&mut self) {
        let len = self.len();
        if len == 0 {
            return;
        }
        let ghost orig = self@;
        let mut low: usize = 0;
        let mut high: usize = len - 1;
        while low < high
            invariant
                len == self@.len(),
                len > 0,
                low <= high + 1,
                high < len,
                self@.to_multiset() == orig.to_multiset(),
                orig == old(self)@,
                sorted_range(self@, 0, low as int),
                sorted_range(self@, high + 1, len as int),
                forall|a: int, b: int| 0 <= a < low <= b < len ==> self@[a] <= self@[b],
                forall|a: int, b: int| 0 <= a <= high < b < len ==> self@[a] <= self@[b],
            decreases len - low,
        {
            let mut is_swapped = false;
            let mut i: usize = low;
            while i < high
                invariant
                    len == self@.len(),
                    low <= i <= high,
                    high < len,
                    self@.to_multiset() == orig.to_multiset(),
                    orig == old(self)@,
                    sorted_range(self@, 0, low as int),
                    sorted_range(self@, high + 1, len as int),
                    forall|a: int, b: int| 0 <= a < low <= b < len ==> self@[a] <= self@[b],
                    forall|a: int, b: int| 0 <= a <= high < b < len ==> self@[a] <= self@[b],
                    forall|t: int| low <= t <= i ==> self@[t] <= self@[i as int],
                    !is_swapped ==> sorted_range(self@, low as int, i + 1),
                decreases high - i,
            {
                if self[i] > self[i + 1] {
                    swap_at(self, i, i + 1);
                    is_swapped = true;
                }
                i = i + 1;
            }
            if !is_swapped {
                proof {
                    assert forall|a: int, b: int| 0 <= a < b < len implies self@[a] <= self@[b] by {
                        if a < low {
                        } else if b > high {
                        } else {
                        }
                    }
                }
                return;
            }
            high = high - 1;
            is_swapped = false;
            let mut k: usize = high;
            while k > low
                invariant
                    len == self@.len(),
                    low <= k <= high,
                    high + 1 < len,
                    self@.to_multiset() == orig.to_multiset(),
                    orig == old(self)@,
                    sorted_range(self@, 0, low as int),
                    sorted_range(self@, high + 1, len as int),
                    forall|a: int, b: int| 0 <= a < low <= b < len ==> self@[a] <= self@[b],
                    forall|a: int, b: int| 0 <= a <= high < b < len ==> self@[a] <= self@[b],
                    forall|t: int| k <= t <= high ==> self@[k as int] <= self@[t],
                    !is_swapped ==> sorted_range(self@, k as int, high + 1),
                decreases k - low,
            {
                if self[k] < self[k - 1] {
                    swap_at(self, k, k - 1);
                    is_swapped = true;
                }
                k = k - 1;
            }
            if !is_swapped {
                proof {
                    assert forall|a: int, b: int| 0 <= a < b < len implies self@[a] <= self@[b] by {
                        if a < low {
                        } else if b > high {
                        } else {
                        }
                    }
                }
                return;
            }
            low = low + 1;
        }
        proof {
            assert(sorted(self@));
        }
    }
}

} // verus!
