use vstd::prelude::*;
use crate::ds::{displayed, bracketed, link_sep, render_links};
use crate::ds::linked_list;
use crate::ds::LinkedList;

verus! {

/// A double-ended queue over a [`LinkedList`].
pub struct LinkedQueue<T> {
    list: LinkedList<T>,
}

impl<T> View for LinkedQueue<T> {
    type V = Seq<T>;

    closed spec fn view(&self) -> Seq<T> {
        self.list@
    }
}

impl<T> LinkedQueue<T> {
    /// Well-formed: the list inside is.
    pub closed spec fn wf(&self) -> bool {
        self.list.wf()
    }

    /// An empty queue.
    pub fn new() -> (r: Self)
        ensures
            r.wf(),
            r@ == Seq::<T>::empty(),
    {
        LinkedQueue { list: LinkedList::new() }
    }

    /// A queue holding a copy of `s`, front first.
    pub fn from_slice(s: &[T]) -> (r: Self)
        where
            T: Copy,
        ensures
            r.wf(),
            r@ == s@,
    {
        LinkedQueue { list: LinkedList::from_slice(s) }
    }

    /// The elements, front to back.
    pub fn to_vec(&self) -> (r: Vec<T>)
        where
            T: Copy,
        requires
            self.wf(),
        ensures
            r@ == self@,
    {
        self.list.to_vec()
    }

    pub fn len(&self) -> (r: usize)
        requires
            self.wf(),
        ensures
            r == self@.len(),
    {
        self.list.len()
    }

    /// The elements as `Display` writes them: `[a <-> b <-> c]`.
    pub fn to_string(&self) -> (r: String)
        where
            T: Copy + std::fmt::Display,
        requires
            self.wf(),
        ensures
            exists|texts: Seq<String>| displayed(self@, texts) && r@ == bracketed(texts, link_sep()),
    {
        render_links(self.list.to_vec().as_slice())
    }

    /// Drops every element.
    pub fn clear(&mut self)
        ensures
            final(self).wf(),
            final(self)@ == Seq::<T>::empty(),
    {
        self.list.clear();
    }

    pub fn is_empty(&self) -> (r: bool)
        requires
            self.wf(),
        ensures
            r == (self@.len() == 0),
    {
        self.list.is_empty()
    }

    pub fn front(&self) -> (r: Option<&T>)
        requires
            self.wf(),
        ensures
            self@.len() == 0 ==> r is None,
            self@.len() > 0 ==> r == Some(&self@[0]),
    {
        self.list.front()
    }

    pub fn front_mut(&mut self) -> (r: Option<&mut T>)
        requires
            old(self).wf(),
        ensures
            final(self).wf(),
            old(self)@.len() == 0 ==> r is None && final(self)@ == old(self)@,
            old(self)@.len() > 0 ==> r is Some && *r->Some_0 == old(self)@[0] && final(self)@
                == old(self)@.update(0, *final(r->Some_0)),
    {
        self.list.front_mut()
    }

    pub fn back(&self) -> (r: Option<&T>)
        requires
            self.wf(),
        ensures
            self@.len() == 0 ==> r is None,
            self@.len() > 0 ==> r == Some(&self@.last()),
    {
        self.list.back()
    }

    pub fn back_mut(&mut self) -> (r: Option<&mut T>)
        requires
            old(self).wf(),
        ensures
            final(self).wf(),
            old(self)@.len() == 0 ==> r is None && final(self)@ == old(self)@,
            old(self)@.len() > 0 ==> r is Some && *r->Some_0 == old(self)@.last() && final(self)@
                == old(self)@.update(old(self)@.len() - 1, *final(r->Some_0)),
    {
        self.list.back_mut()
    }

    pub fn push_front(&mut self, val: T)
        requires
            old(self).wf(),
            old(self)@.len() < usize::MAX,
        ensures
            final(self).wf(),
            final(self)@ == seq![val] + old(self)@,
    {
        self.list.push_front(val);
    }

    pub fn push_back(&mut self, val: T)
        requires
            old(self).wf(),
            old(self)@.len() < usize::MAX,
        ensures
            final(self).wf(),
            final(self)@ == old(self)@.push(val),
    {
        self.list.push_back(val);
    }

    /// Removes and returns the front element; `None` when empty.
    pub fn pop_front(&mut self) -> (r: Option<T>)
        requires
            old(self).wf(),
        ensures
            final(self).wf(),
            old(self)@.len() == 0 ==> r is None && final(self)@ == old(self)@,
            old(self)@.len() > 0 ==> r == Some(old(self)@[0]) && final(self)@ == old(self)@.drop_first(),
    {
        self.list.pop_front()
    }

    /// Removes and returns the back element; `None` when empty.
    pub fn pop_back(&mut self) -> (r: Option<T>)
        requires
            old(self).wf(),
        ensures
            final(self).wf(),
            old(self)@.len() == 0 ==> r is None && final(self)@ == old(self)@,
            old(self)@.len() > 0 ==> r == Some(old(self)@.last()) && final(self)@ == old(self)@.drop_last(),
    {
        self.list.pop_back()
    }

    /// A borrowing iterator, front to back, from either end.
    pub fn iter(&self) -> (r: Iter<'_, T>)
        requires
            self.wf(),
        ensures
            r.wf(),
            r@ == self@,
    {
        Iter { inner: self.list.iter() }
    }

    /// An iterator that lends each element in turn for writing, front to back.
    pub fn iter_mut(&mut self) -> (r: linked_list::IterMut<'_, T>)
        requires
            old(self).wf(),
        ensures
            r.wf(),
            r.list() == old(self)@,
            r.pos() == 0,
            r.end() == old(self)@.len(),
    {
        self.list.iter_mut()
    }

    /// A consuming iterator, front to back, from either end.
    pub fn into_iter(self) -> (r: IntoIter<T>)
        requires
            self.wf(),
        ensures
            r.wf(),
            r@ == self@,
    {
        IntoIter { inner: self.list.into_iter() }
    }
}

impl<T> Default for LinkedQueue<T> {
    fn default() -> (r: Self)
        ensures
            r.wf(),
            r@ == Seq::<T>::empty(),
    {
        Self::new()
    }
}

impl<T: Copy, const N: usize> From<[T; N]> for LinkedQueue<T> {
    /// Holds the elements of `arr`, in order.
    fn from(arr: [T; N]) -> (r: Self)
        ensures
            r.wf(),
            r@ == arr@,
    {
        Self::from_slice(arr.as_slice())
    }
}

impl<T: Copy, const N: usize> vstd::std_specs::convert::FromSpecImpl<[T; N]> for LinkedQueue<T> {
    open spec fn obeys_from_spec() -> bool {
        false
    }

    open spec fn from_spec(arr: [T; N]) -> Self {
        arbitrary()
    }
}

/// The consuming iterator of a [`LinkedQueue`].
pub struct IntoIter<T> {
    inner: linked_list::IntoIter<T>,
}

impl<T> View for IntoIter<T> {
    type V = Seq<T>;

    closed spec fn view(&self) -> Seq<T> {
        self.inner@
    }
}

impl<T> IntoIter<T> {
    /// Well-formed: the iterator inside is.
    pub closed spec fn wf(&self) -> bool {
        self.inner.wf()
    }

    /// Takes the next element from the front.
    pub fn next(&mut self) -> (r: Option<T>)
        requires
            old(self).wf(),
        ensures
            final(self).wf(),
            old(self)@.len() == 0 ==> r is None && final(self)@ == old(self)@,
            old(self)@.len() > 0 ==> r == Some(old(self)@[0]) && final(self)@ == old(self)@.drop_first(),
    {
        self.inner.next()
    }

    /// Takes the next element from the back.
    pub fn next_back(&mut self) -> (r: Option<T>)
        requires
            old(self).wf(),
        ensures
            final(self).wf(),
            old(self)@.len() == 0 ==> r is None && final(self)@ == old(self)@,
            old(self)@.len() > 0 ==> r == Some(old(self)@.last()) && final(self)@ == old(self)@.drop_last(),
    {
        self.inner.next_back()
    }
}

/// A borrowing iterator over a [`LinkedQueue`].
pub struct Iter<'a, T> {
    inner: linked_list::Iter<'a, T>,
}

impl<'a, T> View for Iter<'a, T> {
    type V = Seq<T>;

    closed spec fn view(&self) -> Seq<T> {
        self.inner@
    }
}

impl<'a, T> Iter<'a, T> {
    /// Well-formed: the remaining range is a range of the queue.
    pub closed spec fn wf(&self) -> bool {
        self.inner.wf()
    }

    /// Yields the next element from the front.
    pub fn next(&mut self) -> (r: Option<&'a T>)
        requires
            old(self).wf(),
        ensures
            final(self).wf(),
            old(self)@.len() == 0 ==> r is None && final(self)@ == old(self)@,
            old(self)@.len() > 0 ==> r == Some(&old(self)@[0]) && final(self)@ == old(self)@.drop_first(),
    {
        self.inner.next()
    }

    /// Yields the next element from the back.
    pub fn next_back(&mut self) -> (r: Option<&'a T>)
        requires
            old(self).wf(),
        ensures
            final(self).wf(),
            old(self)@.len() == 0 ==> r is None && final(self)@ == old(self)@,
            old(self)@.len() > 0 ==> r == Some(&old(self)@.last()) && final(self)@ == old(self)@.drop_last(),
    {
        self.inner.next_back()
    }
}

} // verus!
