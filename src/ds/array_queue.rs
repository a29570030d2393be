use vstd::prelude::*;
use crate::ds::{displayed, bracketed, comma_sep, render_commas};
use crate::ds::{MAXLEN, filled_buffer};

verus! {

/// A double-ended queue in a ring of `MAXLEN` slots: `front` is the slot of
/// the first element and the rest follow it, wrapping around the end of the
/// buffer. Pushing onto a full queue fails instead of growing.
#[derive(Debug)]
pub struct ArrayQueue<T> {
    data: Vec<T>,
    front: usize,
    len: usize,
}

/// The slot that holds the element at position `i` of a ring starting at `front`.
pub open spec fn slot(front: int, i: int) -> int {
    (front + i) % (MAXLEN as int)
}

impl<T> View for ArrayQueue<T> {
    type V = Seq<T>;

    closed spec fn view(&self) -> Seq<T> {
        Seq::new(self.len as nat, |i: int| self.data@[slot(self.front as int, i)])
    }
}

impl<T: Copy> ArrayQueue<T> {
    /// Well-formed: the layout is sound, and so at most `MAXLEN` elements
    /// are held.
    pub open spec fn wf(&self) -> bool {
        self.layout_ok() && self@.len() <= MAXLEN
    }

    /// The layout is sound: the ring has `MAXLEN` slots, `front` is one of them and
    /// the live elements fit.
    pub closed spec fn layout_ok(&self) -> bool {
        self.data@.len() == MAXLEN && self.front < MAXLEN && self.len <= MAXLEN
    }

    /// An empty queue.
    pub fn new() -> (r: Self)
        where
            T: Default,
        ensures
            r.wf(),
            r@ == Seq::<T>::empty(),
    {
        let r = ArrayQueue { data: filled_buffer(), front: 0, len: 0 };
        proof {
            assert(r@ =~= Seq::<T>::empty());
        }
        r
    }

    /// A queue holding the first `MAXLEN` elements of `s`, front first.
    pub fn from_slice(s: &[T]) -> (r: Self)
        where
            T: Default,
        ensures
            r.wf(),
            r@ == s@.subrange(0, if s@.len() < MAXLEN { s@.len() as int } else { MAXLEN as int }),
    {
        let mut q = Self::new();
        let n = if s.len() < MAXLEN { s.len() } else { MAXLEN };
        let mut i: usize = 0;
        while i < n
            invariant
                q.wf(),
                n <= s@.len(),
                n <= MAXLEN,
                i <= n,
                q@ == s@.subrange(0, i as int),
            decreases n - i,
        {
            q.push_back(s[i]);
            proof {
                assert(q@ =~= s@.subrange(0, i as int + 1));
            }
            i = i + 1;
        }
        q
    }

    pub fn len(&self) -> (r: usize)
        requires
            self.wf(),
        ensures
            r == self@.len(),
            r <= MAXLEN,
    {
        self.len
    }

    pub fn is_empty(&self) -> (r: bool)
        requires
            self.wf(),
        ensures
            r == (self@.len() == 0),
    {
        self.len == 0
    }

    /// The elements as `Display` writes them: `[a, b, c]`.
    pub fn to_string(&self) -> (r: String)
        where
            T: std::fmt::Display,
        requires
            self.wf(),
        ensures
            exists|texts: Seq<String>| displayed(self@, texts) && r@ == bracketed(texts, comma_sep()),
    {
        render_commas(self.to_vec().as_slice())
    }

    /// Drops every element.
    pub fn clear(&mut self)
        requires
            old(self).wf(),
        ensures
            final(self).wf(),
            final(self)@ == Seq::<T>::empty(),
    {
        self.front = 0;
        self.len = 0;
        proof {
            assert(self@ =~= Seq::<T>::empty());
        }
    }

    /// The elements, front to back.
    pub fn to_vec(&self) -> (r: Vec<T>)
        requires
            self.wf(),
        ensures
            r@ == self@,
    {
        let mut out: Vec<T> = Vec::new();
        let mut i: usize = 0;
        while i < self.len
            invariant
                self.wf(),
                i <= self.len,
                out@ == self@.subrange(0, i as int),
            decreases self.len - i,
        {
            out.push(self.data[(self.front + i) % MAXLEN]);
            proof {
                assert(out@ =~= self@.subrange(0, i as int + 1));
            }
            i = i + 1;
        }
        proof {
            assert(out@ =~= self@);
        }
        out
    }

    pub fn front(&self) -> (r: Option<&T>)
        requires
            self.wf(),
        ensures
            self@.len() == 0 ==> r is None,
            self@.len() > 0 ==> r == Some(&self@[0]),
    {
        if self.len == 0 {
            return None;
        }
        proof {
            assert(slot(self.front as int, 0) == self.front);
        }
        Some(&self.data[self.front])
    }

    pub fn front_mut(&mut self) -> (r: Option<&mut T>)
        requires
            old(self).wf(),
        ensures
            final(self).wf(),
            old(self)@.len() == 0 ==> r is None && final(self)@ == old(self)@,
            old(self)@.len() > 0 ==> r is Some && *r->Some_0 == old(self)@[0] && final(self)@
                == old(self)@.update(0, *final(r->Some_0)),
    {
        if self.len == 0 {
            return None;
        }
        proof {
            assert(slot(self.front as int, 0) == self.front);
            assert forall|i: int| 0 < i < self.len implies slot(self.front as int, i) != self.front by {}
        }
        let f = self.front;
        Some(&mut self.data[f])
    }

    pub fn back(&self) -> (r: Option<&T>)
        requires
            self.wf(),
        ensures
            self@.len() == 0 ==> r is None,
            self@.len() > 0 ==> r == Some(&self@.last()),
    {
        if self.len == 0 {
            return None;
        }
        let b = (self.front + self.len - 1) % MAXLEN;
        Some(&self.data[b])
    }

    pub fn back_mut(&mut self) -> (r: Option<&mut T>)
        requires
            old(self).wf(),
        ensures
            final(self).wf(),
            old(self)@.len() == 0 ==> r is None && final(self)@ == old(self)@,
            old(self)@.len() > 0 ==> r is Some && *r->Some_0 == old(self)@.last() && final(self)@
                == old(self)@.update(old(self)@.len() - 1, *final(r->Some_0)),
    {
        if self.len == 0 {
            return None;
        }
        let b = (self.front + self.len - 1) % MAXLEN;
        proof {
            assert forall|i: int| 0 <= i < self.len - 1 implies slot(self.front as int, i) != b by {}
        }
        Some(&mut self.data[b])
    }

    /// Pushes `elem` before the front; `false`, and no change, when full.
    pub fn push_front(&mut self, elem: T) -> (r: bool)
        requires
            old(self).wf(),
        ensures
            final(self).wf(),
            r == (old(self)@.len() < MAXLEN),
            r ==> final(self)@ == seq![elem] + old(self)@,
            !r ==> final(self)@ == old(self)@,
    {
        if self.len == MAXLEN {
            return false;
        }
        let f = if self.front == 0 { MAXLEN - 1 } else { self.front - 1 };
        self.data.set(f, elem);
        self.front = f;
        self.len = self.len + 1;
        proof {
            let of = old(self).front as int;
            assert forall|i: int| 0 <= i < self.len implies #[trigger] self@[i] == (seq![elem] + old(self)@)[i] by {
                if i > 0 {
                    assert(slot(f as int, i) == slot(of, i - 1));
                    assert(slot(of, i - 1) != f);
                }
            }
            assert(self@ =~= seq![elem] + old(self)@);
        }
        true
    }

    /// Pushes `elem` after the back; `false`, and no change, when full.
    pub fn push_back(&mut self, elem: T) -> (r: bool)
        requires
            old(self).wf(),
        ensures
            final(self).wf(),
            r == (old(self)@.len() < MAXLEN),
            r ==> final(self)@ == old(self)@.push(elem),
            !r ==> final(self)@ == old(self)@,
    {
        if self.len == MAXLEN {
            return false;
        }
        let b = (self.front + self.len) % MAXLEN;
        self.data.set(b, elem);
        self.len = self.len + 1;
        proof {
            let of = self.front as int;
            assert forall|i: int| 0 <= i < self.len implies #[trigger] self@[i] == old(self)@.push(elem)[i] by {
                if i < self.len - 1 {
                    assert(slot(of, i) != b);
                }
            }
            assert(self@ =~= old(self)@.push(elem));
        }
        true
    }

    /// Removes and returns the front element; `None` when empty.
    pub fn pop_front(&mut self) -> (r: Option<T>)
        requires
            old(self).wf(),
        ensures
            final(self).wf(),
            old(self)@.len() == 0 ==> r is None && final(self)@ == old(self)@,
            old(self)@.len() > 0 ==> r == Some(old(self)@[0]) && final(self)@ == old(self)@.drop_first(),
    {
        if self.len == 0 {
            return None;
        }
        let deleted = self.data[self.front];
        self.front = (self.front + 1) % MAXLEN;
        self.len = self.len - 1;
        proof {
            let of = old(self).front as int;
            assert(slot(of, 0) == of);
            assert forall|i: int| 0 <= i < self.len implies #[trigger] self@[i] == old(self)@.drop_first()[i] by {
                assert(slot(self.front as int, i) == slot(of, i + 1));
            }
            assert(self@ =~= old(self)@.drop_first());
        }
        Some(deleted)
    }

    /// Removes and returns the back element; `None` when empty.
    pub fn pop_back(&mut self) -> (r: Option<T>)
        requires
            old(self).wf(),
        ensures
            final(self).wf(),
            old(self)@.len() == 0 ==> r is None && final(self)@ == old(self)@,
            old(self)@.len() > 0 ==> r == Some(old(self)@.last()) && final(self)@ == old(self)@.drop_last(),
    {
        if self.len == 0 {
            return None;
        }
        let b = (self.front + self.len - 1) % MAXLEN;
        let deleted = self.data[b];
        self.len = self.len - 1;
        proof {
            assert(self@ =~= old(self)@.drop_last());
        }
        Some(deleted)
    }
}

impl<T: Copy + Default> Default for ArrayQueue<T> {
    fn default() -> (r: Self)
        ensures
            r.wf(),
            r@ == Seq::<T>::empty(),
    {
        Self::new()
    }
}

impl<T: Copy + Default, const N: usize> From<[T; N]> for ArrayQueue<T> {
    /// Holds the first `MAXLEN` elements of `arr`, in order.
    fn from(arr: [T; N]) -> (r: Self)
        ensures
            r.wf(),
            r@ == arr@.subrange(0, if N < MAXLEN { N as int } else { MAXLEN as int }),
    {
        Self::from_slice(arr.as_slice())
    }
}

impl<T: Copy + Default, const N: usize> vstd::std_specs::convert::FromSpecImpl<[T; N]> for ArrayQueue<T> {
    open spec fn obeys_from_spec() -> bool {
        false
    }

    open spec fn from_spec(arr: [T; N]) -> Self {
        arbitrary()
    }
}

} // verus!
