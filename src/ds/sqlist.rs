use vstd::prelude::*;
use crate::ds::{displayed, bracketed, comma_sep, render_commas};
use vstd::std_specs::cmp::PartialEqSpec;
use crate::ds::{MAXLEN, filled_buffer, seq_has, first_match, match_positions, slice_find, slice_find_all};

verus! {

/// A sequential list in a fixed buffer of `MAXLEN` slots: positional
/// insertion and removal shift the elements behind the position, and an
/// insertion into a full list fails instead of growing.
#[derive(Debug)]
pub struct SqList<T> {
    data: Vec<T>,
    len: usize,
}

impl<T> View for SqList<T> {
    type V = Seq<T>;

    closed spec fn view(&self) -> Seq<T> {
        self.data@.subrange(0, self.len as int)
    }
}

impl<T: Copy> SqList<T> {
    /// Well-formed: the layout is sound, and so at most `MAXLEN` elements
    /// are held.
    pub open spec fn wf(&self) -> bool {
        self.layout_ok() && self@.len() <= MAXLEN
    }

    /// The layout is sound: the buffer has `MAXLEN` slots and the live ones fit.
    pub closed spec fn layout_ok(&self) -> bool {
        self.data@.len() == MAXLEN && self.len <= MAXLEN
    }

    /// An empty list.
    pub fn new() -> (r: Self)
        where
            T: Default,
        ensures
            r.wf(),
            r@ == Seq::<T>::empty(),
    {
        SqList { data: filled_buffer(), len: 0 }
    }

    /// A list holding the first `MAXLEN` elements of `s`.
    pub fn from_slice(s: &[T]) -> (r: Self)
        where
            T: Default,
        ensures
            r.wf(),
            r@ == s@.subrange(0, if s@.len() < MAXLEN { s@.len() as int } else { MAXLEN as int }),
    {
        let mut l = Self::new();
        let n = if s.len() < MAXLEN { s.len() } else { MAXLEN };
        let mut i: usize = 0;
        while i < n
            invariant
                l.wf(),
                n <= s@.len(),
                n <= MAXLEN,
                i <= n,
                l@ == s@.subrange(0, i as int),
            decreases n - i,
        {
            l.push_back(s[i]);
            proof {
                assert(l@ =~= s@.subrange(0, i as int + 1));
            }
            i = i + 1;
        }
        l
    }

    pub fn len(&self) -> (r: usize)
        requires
            self.wf(),
        ensures
            r == self@.len(),
            r <= MAXLEN,
    {
        self.len
    }

    pub fn is_empty(&self) -> (r: bool)
        requires
            self.wf(),
        ensures
            r == (self@.len() == 0),
    {
        self.len == 0
    }

    /// The elements as `Display` writes them: `[a, b, c]`.
    pub fn to_string(&self) -> (r: String)
        where
            T: std::fmt::Display,
        requires
            self.wf(),
        ensures
            exists|texts: Seq<String>| displayed(self@, texts) && r@ == bracketed(texts, comma_sep()),
    {
        render_commas(self.as_slice())
    }

    /// Drops every element.
    pub fn clear(&mut self)
        requires
            old(self).wf(),
        ensures
            final(self).wf(),
            final(self)@ == Seq::<T>::empty(),
    {
        self.len = 0;
        proof {
            assert(self@ =~= Seq::<T>::empty());
        }
    }

    /// The live elements, front to back.
    pub fn as_slice(&self) -> (r: &[T])
        requires
            self.wf(),
        ensures
            r@ == self@,
    {
        let s = self.data.as_slice();
        let r = slice_prefix(s, self.len);
        r
    }

    /// The element at `at`; `at` must be in bounds.
    pub fn index(&self, at: usize) -> (r: &T)
        requires
            self.wf(),
            at < self@.len(),
        ensures
            *r == self@[at as int],
    {
        &self.data[at]
    }

    /// Whether some element equals `elem`.
    pub fn contains(&self, elem: &T) -> (r: bool)
        where
            T: PartialEq,
        requires
            self.wf(),
        ensures
            T::obeys_eq_spec() ==> r == seq_has(self@, elem),
    {
        slice_find(self.data.as_slice(), self.len, elem).is_some()
    }

    /// The position of the first element equal to `elem`.
    pub fn find(&self, elem: &T) -> (r: Option<usize>)
        where
            T: PartialEq,
        requires
            self.wf(),
        ensures
            T::obeys_eq_spec() ==> match r {
                Some(i) => first_match(self@, elem, i as int),
                None => !seq_has(self@, elem),
            },
    {
        slice_find(self.data.as_slice(), self.len, elem)
    }

    /// The positions of all elements equal to `elem`, in increasing order.
    pub fn find_all(&self, elem: &T) -> (r: Vec<usize>)
        where
            T: PartialEq,
        requires
            self.wf(),
        ensures
            T::obeys_eq_spec() ==> r@ == match_positions(self@, elem),
    {
        slice_find_all(self.data.as_slice(), self.len, elem)
    }

    /// Inserts `elem` at `at`, shifting the rest up; `false`, and no change,
    /// when the list is full or `at` is past the end.
    pub fn insert(&mut self, at: usize, elem: T) -> (r: bool)
        requires
            old(self).wf(),
        ensures
            final(self).wf(),
            r == (old(self)@.len() < MAXLEN && at <= old(self)@.len()),
            r ==> final(self)@ == old(self)@.insert(at as int, elem),
            !r ==> final(self)@ == old(self)@,
    {
        if self.len == MAXLEN || at > self.len {
            return false;
        }
        let ghost od = self.data@;
        let mut k: usize = self.len;
        while k > at
            invariant
                self.data@.len() == MAXLEN,
                od.len() == MAXLEN,
                self.len == old(self).len,
                self.len < MAXLEN,
                od == old(self).data@,
                at <= k <= self.len,
                forall|t: int| 0 <= t < k ==> self.data@[t] == od[t],
                forall|t: int| k < t <= self.len ==> self.data@[t] == od[t - 1],
            decreases k - at,
        {
            let x = self.data[k - 1];
            self.data.set(k, x);
            k = k - 1;
        }
        self.data.set(at, elem);
        self.len = self.len + 1;
        proof {
            assert(self@ =~= old(self)@.insert(at as int, elem));
        }
        true
    }

    /// Removes and returns the element at `at`, shifting the rest down;
    /// `None`, and no change, when `at` is out of bounds.
    pub fn remove(&mut self, at: usize) -> (r: Option<T>)
        requires
            old(self).wf(),
        ensures
            final(self).wf(),
            at < old(self)@.len() ==> r == Some(old(self)@[at as int]) && final(self)@ == old(
                self,
            )@.remove(at as int),
            at >= old(self)@.len() ==> r is None && final(self)@ == old(self)@,
    {
        if at >= self.len {
            return None;
        }
        let deleted = self.data[at];
        let ghost od = self.data@;
        let mut k: usize = at;
        while k + 1 < self.len
            invariant
                self.data@.len() == MAXLEN,
                od.len() == MAXLEN,
                self.len == old(self).len,
                self.len <= MAXLEN,
                od == old(self).data@,
                at <= k < self.len,
                forall|t: int| 0 <= t < at ==> self.data@[t] == od[t],
                forall|t: int| at <= t < k ==> self.data@[t] == od[t + 1],
                forall|t: int| k <= t < MAXLEN ==> self.data@[t] == od[t],
            decreases self.len - k,
        {
            let x = self.data[k + 1];
            self.data.set(k, x);
            k = k + 1;
        }
        self.len = self.len - 1;
        proof {
            assert(self@ =~= old(self)@.remove(at as int));
        }
        Some(deleted)
    }

    /// Inserts at the front; `false` when full.
    pub fn push_front(&mut self, elem: T) -> (r: bool)
        requires
            old(self).wf(),
        ensures
            final(self).wf(),
            r == (old(self)@.len() < MAXLEN),
            r ==> final(self)@ == seq![elem] + old(self)@,
            !r ==> final(self)@ == old(self)@,
    {
        let r = self.insert(0, elem);
        proof {
            if r {
                assert(final(self)@ =~= seq![elem] + old(self)@) by {}
            }
        }
        r
    }

    /// Inserts at the back; `false` when full.
    pub fn push_back(&mut self, elem: T) -> (r: bool)
        requires
            old(self).wf(),
        ensures
            final(self).wf(),
            r == (old(self)@.len() < MAXLEN),
            r ==> final(self)@ == old(self)@.push(elem),
            !r ==> final(self)@ == old(self)@,
    {
        let n = self.len;
        let r = self.insert(n, elem);
        proof {
            if r {
                assert(final(self)@ =~= old(self)@.push(elem)) by {}
            }
        }
        r
    }

    /// Removes and returns the front element; `None` when empty.
    pub fn pop_front(&mut self) -> (r: Option<T>)
        requires
            old(self).wf(),
        ensures
            final(self).wf(),
            old(self)@.len() == 0 ==> r is None && final(self)@ == old(self)@,
            old(self)@.len() > 0 ==> r == Some(old(self)@[0]) && final(self)@ == old(self)@.drop_first(),
    {
        let r = self.remove(0);
        proof {
            if old(self)@.len() > 0 {
                assert(final(self)@ =~= old(self)@.drop_first()) by {}
            }
        }
        r
    }

    /// Removes and returns the back element; `None` when empty.
    pub fn pop_back(&mut self) -> (r: Option<T>)
        requires
            old(self).wf(),
        ensures
            final(self).wf(),
            old(self)@.len() == 0 ==> r is None && final(self)@ == old(self)@,
            old(self)@.len() > 0 ==> r == Some(old(self)@.last()) && final(self)@ == old(self)@.drop_last(),
    {
        if self.len == 0 {
            return None;
        }
        let n = self.len - 1;
        let r = self.remove(n);
        proof {
            assert(final(self)@ =~= old(self)@.drop_last()) by {}
        }
        r
    }
}

/// The first `n` elements of `s`.
fn slice_prefix<T>(s: &[T], n: usize) -> (r: &[T])
    requires
        n <= s@.len(),
    ensures
        r@ == s@.subrange(0, n as int),
{
    let (a, _b) = s.split_at(n);
    a
}

impl<T: Copy + Default> Default for SqList<T> {
    fn default() -> (r: Self)
        ensures
            r.wf(),
            r@ == Seq::<T>::empty(),
    {
        Self::new()
    }
}

impl<T: Copy + Default, const N: usize> From<[T; N]> for SqList<T> {
    /// Holds the first `MAXLEN` elements of `arr`, in order.
    fn from(arr: [T; N]) -> (r: Self)
        ensures
            r.wf(),
            r@ == arr@.subrange(0, if N < MAXLEN { N as int } else { MAXLEN as int }),
    {
        Self::from_slice(arr.as_slice())
    }
}

impl<T: Copy + Default, const N: usize> vstd::std_specs::convert::FromSpecImpl<[T; N]> for SqList<T> {
    open spec fn obeys_from_spec() -> bool {
        false
    }

    open spec fn from_spec(arr: [T; N]) -> Self {
        arbitrary()
    }
}

} // verus!
