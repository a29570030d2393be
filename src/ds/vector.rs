use vstd::prelude::*;
use crate::ds::{displayed, bracketed, comma_sep, render_commas};
use std::collections::VecDeque;

verus! {

/// Capacity after one growth step: doubled, and at least one.
pub open spec fn grown_cap(cap: nat) -> nat {
    if cap == 0 {
        1
    } else if cap * 2 <= usize::MAX {
        cap * 2
    } else {
        usize::MAX as nat
    }
}

/// A growable array that keeps its own capacity: it doubles (at least to one)
/// whenever a write finds it full, and it never shrinks by itself.
pub struct Vector<T> {
    buf: Vec<T>,
    capacity: usize,
}

impl<T> View for Vector<T> {
    type V = Seq<T>;

    closed spec fn view(&self) -> Seq<T> {
        self.buf@
    }
}

impl<T> Vector<T> {
    /// Well-formed: the live elements fit in the capacity.
    pub closed spec fn wf(&self) -> bool {
        self.buf@.len() <= self.capacity
    }

    /// The capacity, as the model sees it.
    pub closed spec fn spec_cap(&self) -> nat {
        self.capacity as nat
    }

    /// An empty vector without any capacity.
    pub fn new() -> (r: Self)
        ensures
            r.wf(),
            r@ == Seq::<T>::empty(),
            r.spec_cap() == 0,
    {
        Vector { buf: Vec::new(), capacity: 0 }
    }

    /// An empty vector with room for `cap` elements.
    pub fn with_cap(cap: usize) -> (r: Self)
        ensures
            r.wf(),
            r@ == Seq::<T>::empty(),
            r.spec_cap() == cap,
    {
        Vector { buf: Vec::with_capacity(cap), capacity: cap }
    }

    pub fn len(&self) -> (r: usize)
        ensures
            r == self@.len(),
            self.wf() ==> r <= self.spec_cap(),
    {
        self.buf.len()
    }

    pub fn cap(&self) -> (r: usize)
        ensures
            r == self.spec_cap(),
            self.wf() ==> self@.len() <= r,
    {
        self.capacity
    }

    pub fn is_empty(&self) -> (r: bool)
        ensures
            r == (self@.len() == 0),
    {
        self.buf.len() == 0
    }

    /// Drops every element; the capacity stays.
    pub fn clear(&mut self)
        requires
            old(self).wf(),
        ensures
            final(self).wf(),
            final(self)@ == Seq::<T>::empty(),
            final(self).spec_cap() == old(self).spec_cap(),
    {
        self.buf.clear();
    }

    fn reserve_one(&mut self)
        requires
            old(self).wf(),
            old(self)@.len() < usize::MAX,
        ensures
            final(self).wf(),
            final(self)@ == old(self)@,
            final(self).spec_cap() == if old(self)@.len() == old(self).spec_cap() {
                grown_cap(old(self).spec_cap())
            } else {
                old(self).spec_cap()
            },
            final(self)@.len() < final(self).spec_cap(),
    {
        if self.buf.len() == self.capacity {
            let new_cap: usize = if self.capacity == 0 {
                1
            } else if self.capacity <= usize::MAX / 2 {
                self.capacity * 2
            } else {
                usize::MAX
            };
            self.capacity = new_cap;
        }
    }

    /// The elements as `Display` writes them: `[a, b, c]`.
    pub fn to_string(&self) -> (r: String)
        where
            T: std::fmt::Display,
        ensures
            exists|texts: Seq<String>| displayed(self@, texts) && r@ == bracketed(texts, comma_sep()),
    {
        render_commas(self.buf.as_slice())
    }

    /// Appends `elem`, growing the capacity first when the vector is full.
    pub fn push(&mut self, elem: T)
        requires
            old(self).wf(),
            old(self)@.len() < usize::MAX,
        ensures
            final(self).wf(),
            final(self)@ == old(self)@.push(elem),
            final(self).spec_cap() == if old(self)@.len() == old(self).spec_cap() {
                grown_cap(old(self).spec_cap())
            } else {
                old(self).spec_cap()
            },
    {
        self.reserve_one();
        self.buf.push(elem);
    }

    /// Removes and returns the last element; `None` on an empty vector.
    pub fn pop(&mut self) -> (r: Option<T>)
        requires
            old(self).wf(),
        ensures
            final(self).wf(),
            old(self)@.len() == 0 ==> r is None && final(self)@ == old(self)@,
            old(self)@.len() > 0 ==> r == Some(old(self)@.last()) && final(self)@ == old(self)@.drop_last(),
            final(self).spec_cap() == old(self).spec_cap(),
    {
        self.buf.pop()
    }

    /// Inserts `elem` at `at`, shifting the elements from `at` on one place up.
    pub fn insert(&mut self, at: usize, elem: T)
        requires
            old(self).wf(),
            at <= old(self)@.len(),
            old(self)@.len() < usize::MAX,
        ensures
            final(self).wf(),
            final(self)@ == old(self)@.insert(at as int, elem),
            final(self).spec_cap() == if old(self)@.len() == old(self).spec_cap() {
                grown_cap(old(self).spec_cap())
            } else {
                old(self).spec_cap()
            },
    {
        self.reserve_one();
        self.buf.insert(at, elem);
    }

    /// Removes and returns the element at `at`, shifting the rest one place down.
    pub fn remove(&mut self, at: usize) -> (r: T)
        requires
            old(self).wf(),
            at < old(self)@.len(),
        ensures
            final(self).wf(),
            r == old(self)@[at as int],
            final(self)@ == old(self)@.remove(at as int),
            final(self).spec_cap() == old(self).spec_cap(),
    {
        self.buf.remove(at)
    }

    /// Exchanges the elements at `i` and `j`.
    pub fn swap(&mut self, i: usize, j: usize)
        requires
            old(self).wf(),
            i < old(self)@.len(),
            j < old(self)@.len(),
        ensures
            final(self).wf(),
            final(self)@ == old(self)@.update(i as int, old(self)@[j as int]).update(
                j as int,
                old(self)@[i as int],
            ),
            final(self).spec_cap() == old(self).spec_cap(),
    {
        if i != j {
            swap_in_place(&mut self.buf, i, j);
        }
    }

    /// The live elements, front to back.
    pub fn as_slice(&self) -> (r: &[T])
        ensures
            r@ == self@,
    {
        self.buf.as_slice()
    }

    /// The live elements, for writing.
    pub fn iter_mut(&mut self) -> (r: &mut [T])
        requires
            old(self).wf(),
        ensures
            r@ == old(self)@,
            final(self)@ == final(r)@,
            final(self).spec_cap() == old(self).spec_cap(),
    {
        self.buf.as_mut_slice()
    }

    /// A vector holding a copy of `s`, with exactly that much capacity.
    pub fn from_slice(s: &[T]) -> (r: Self)
        where
            T: Copy,
        ensures
            r.wf(),
            r@ == s@,
            r.spec_cap() == s@.len(),
    {
        let mut buf: Vec<T> = Vec::with_capacity(s.len());
        let mut i: usize = 0;
        while i < s.len()
            invariant
                i <= s@.len(),
                buf@ == s@.subrange(0, i as int),
            decreases s@.len() - i,
        {
            buf.push(s[i]);
            i = i + 1;
        }
        proof {
            assert(buf@ =~= s@);
        }
        Vector { buf, capacity: s.len() }
    }

    /// A consuming iterator over the elements, front to back.
    pub fn into_iter(self) -> (r: IntoIter<T>)
        ensures
            r@ == self@,
    {
        let mut items: VecDeque<T> = VecDeque::new();
        let mut buf = self.buf;
        let ghost orig = buf@;
        while buf.len() > 0
            invariant
                orig == buf@ + items@,
            decreases buf@.len(),
        {
            let x = buf.pop().unwrap();
            items.push_front(x);
            proof {
                assert(orig =~= buf@ + items@);
            }
        }
        proof {
            assert(items@ =~= orig);
        }
        IntoIter { items }
    }
}

impl<T> Default for Vector<T> {
    fn default() -> (r: Self)
        ensures
            r.wf(),
            r@ == Seq::<T>::empty(),
            r.spec_cap() == 0,
    {
        Self::new()
    }
}

impl<T: Copy, const N: usize> From<[T; N]> for Vector<T> {
    /// Holds the elements of `arr`, in order.
    fn from(arr: [T; N]) -> (r: Self)
        ensures
            r.wf(),
            r@ == arr@,
            r.spec_cap() == N,
    {
        Self::from_slice(arr.as_slice())
    }
}

impl<T: Copy, const N: usize> vstd::std_specs::convert::FromSpecImpl<[T; N]> for Vector<T> {
    open spec fn obeys_from_spec() -> bool {
        false
    }

    open spec fn from_spec(arr: [T; N]) -> Self {
        arbitrary()
    }
}

/// Relies on `<[T]>::swap`: it exchanges the two elements and nothing else.
#[verifier::external_body]
fn swap_in_place<T>(v: &mut Vec<T>, i: usize, j: usize)
    requires
        i < old(v)@.len(),
        j < old(v)@.len(),
    ensures
        final(v)@ == old(v)@.update(i as int, old(v)@[j as int]).update(j as int, old(v)@[i as int]),
{
    v.swap(i, j)
}

/// The consuming iterator of a [`Vector`]: it yields owned elements from
/// either end until the two ends meet.
pub struct IntoIter<T> {
    items: VecDeque<T>,
}

impl<T> View for IntoIter<T> {
    type V = Seq<T>;

    closed spec fn view(&self) -> Seq<T> {
        self.items@
    }
}

impl<T> IntoIter<T> {
    /// Takes the next element from the front.
    pub fn next(&mut self) -> (r: Option<T>)
        ensures
            old(self)@.len() == 0 ==> r is None && final(self)@ == old(self)@,
            old(self)@.len() > 0 ==> r == Some(old(self)@[0]) && final(self)@ == old(self)@.drop_first(),
    {
        self.items.pop_front()
    }

    /// Takes the next element from the back.
    pub fn next_back(&mut self) -> (r: Option<T>)
        ensures
            old(self)@.len() == 0 ==> r is None && final(self)@ == old(self)@,
            old(self)@.len() > 0 ==> r == Some(old(self)@.last()) && final(self)@ == old(self)@.drop_last(),
    {
        self.items.pop_back()
    }
}

} // verus!
