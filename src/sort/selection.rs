use vstd::prelude::*;
use crate::sort::{sorted, sorts, swap_at};

verus! {

/// Selection sort: repeatedly swaps the least remaining element to the
/// front of the unsorted part.
pub trait Selection: View<V = Seq<i32>> {
    fn selection_sort(&mut self)
        ensures
            sorts(final(self)@, old(self)@),
    ;
}

impl Selection for [i32] {
    fn selection_sort(&mut self) {
        let len = self.len();
        if len == 0 {
            return;
        }
        let ghost orig = self@;
        let mut i: usize = 0;
        while i < len - 1
            invariant
                len == self@.len(),
                len > 0,
                i <= len - 1,
                self@.to_multiset() == orig.to_multiset(),
                orig == old(self)@,
                forall|a: int, b: int| 0 <= a < b < i ==> self@[a] <= self@[b],
                forall|a: int, b: int| 0 <= a < i <= b < len ==> self@[a] <= self@[b],
            decreases len - i,
        {
            let mut min: usize = i;
            let mut j: usize = i + 1;
            while j < len
                invariant
                    len == self@.len(),
                    i < len,
                    i <= min < len,
                    i < j <= len,
                    forall|t: int| i <= t < j ==> self@[min as int] <= self@[t],
                decreases len - j,
            {
                if self[j] < self[min] {
                    min = j;
                }
                j = j + 1;
            }
            swap_at(self, i, min);
            i = i + 1;
        }
        proof {
            assert(sorted(self@));
        }
    }
}

} // verus!
