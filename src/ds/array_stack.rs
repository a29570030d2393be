use vstd::prelude::*;
use crate::ds::{displayed, bracketed, comma_sep, render_commas};
use crate::ds::{MAXLEN, filled_buffer};

verus! {

/// A stack in a fixed buffer of `MAXLEN` slots; the model runs from bottom
/// to top. Pushing onto a full stack fails instead of growing.
#[derive(Debug)]
pub struct ArrayStack<T> {
    data: Vec<T>,
    len: usize,
}

impl<T> View for ArrayStack<T> {
    type V = Seq<T>;

    closed spec fn view(&self) -> Seq<T> {
        self.data@.subrange(0, self.len as int)
    }
}

impl<T: Copy> ArrayStack<T> {
    /// Well-formed: the layout is sound, and so at most `MAXLEN` elements
    /// are held.
    pub open spec fn wf(&self) -> bool {
        self.layout_ok() && self@.len() <= MAXLEN
    }

    /// The layout is sound: the buffer has `MAXLEN` slots and the live ones fit.
    pub closed spec fn layout_ok(&self) -> bool {
        self.data@.len() == MAXLEN && self.len <= MAXLEN
    }

    /// An empty stack.
    pub fn new() -> (r: Self)
        where
            T: Default,
        ensures
            r.wf(),
            r@ == Seq::<T>::empty(),
    {
        ArrayStack { data: filled_buffer(), len: 0 }
    }

    /// A stack holding the first `MAXLEN` elements of `s`, the last on top.
    pub fn from_slice(s: &[T]) -> (r: Self)
        where
            T: Default,
        ensures
            r.wf(),
            r@ == s@.subrange(0, if s@.len() < MAXLEN { s@.len() as int } else { MAXLEN as int }),
    {
        let mut st = Self::new();
        let n = if s.len() < MAXLEN { s.len() } else { MAXLEN };
        let mut i: usize = 0;
        while i < n
            invariant
                st.wf(),
                n <= s@.len(),
                n <= MAXLEN,
                i <= n,
                st@ == s@.subrange(0, i as int),
            decreases n - i,
        {
            st.push(s[i]);
            proof {
                assert(st@ =~= s@.subrange(0, i as int + 1));
            }
            i = i + 1;
        }
        st
    }

    pub fn len(&self) -> (r: usize)
        requires
            self.wf(),
        ensures
            r == self@.len(),
            r <= MAXLEN,
    {
        self.len
    }

    pub fn is_empty(&self) -> (r: bool)
        requires
            self.wf(),
        ensures
            r == (self@.len() == 0),
    {
        self.len == 0
    }

    /// The elements as `Display` writes them: `[a, b, c]`.
    pub fn to_string(&self) -> (r: String)
        where
            T: std::fmt::Display,
        requires
            self.wf(),
        ensures
            exists|texts: Seq<String>| displayed(self@, texts) && r@ == bracketed(texts, comma_sep()),
    {
        render_commas(self.as_slice())
    }

    /// Drops every element.
    pub fn clear(&mut self)
        requires
            old(self).wf(),
        ensures
            final(self).wf(),
            final(self)@ == Seq::<T>::empty(),
    {
        self.len = 0;
        proof {
            assert(self@ =~= Seq::<T>::empty());
        }
    }

    /// The elements, bottom to top.
    pub fn to_vec(&self) -> (r: Vec<T>)
        requires
            self.wf(),
        ensures
            r@ == self@,
    {
        let mut out: Vec<T> = Vec::new();
        let mut i: usize = 0;
        while i < self.len
            invariant
                self.wf(),
                i <= self.len,
                out@ == self@.subrange(0, i as int),
            decreases self.len - i,
        {
            out.push(self.data[i]);
            proof {
                assert(out@ =~= self@.subrange(0, i as int + 1));
            }
            i = i + 1;
        }
        proof {
            assert(out@ =~= self@);
        }
        out
    }

    /// The live elements, bottom to top.
    pub fn as_slice(&self) -> (r: &[T])
        requires
            self.wf(),
        ensures
            r@ == self@,
    {
        let (a, _b) = self.data.as_slice().split_at(self.len);
        a
    }

    /// The top element.
    pub fn peek(&self) -> (r: Option<&T>)
        requires
            self.wf(),
        ensures
            self@.len() == 0 ==> r is None,
            self@.len() > 0 ==> r == Some(&self@.last()),
    {
        if self.len == 0 {
            None
        } else {
            Some(&self.data[self.len - 1])
        }
    }

    /// The top element, for writing.
    pub fn peek_mut(&mut self) -> (r: Option<&mut T>)
        requires
            old(self).wf(),
        ensures
            final(self).wf(),
            old(self)@.len() == 0 ==> r is None && final(self)@ == old(self)@,
            old(self)@.len() > 0 ==> r is Some && *r->Some_0 == old(self)@.last() && final(self)@
                == old(self)@.update(old(self)@.len() - 1, *final(r->Some_0)),
    {
        if self.len == 0 {
            proof {
                assert(final(self)@ == old(self)@) by {}
            }
            None
        } else {
            let top = self.len - 1;
            let r = &mut self.data[top];
            Some(r)
        }
    }

    /// Puts `elem` on top; `false`, and no change, when the stack is full.
    pub fn push(&mut self, elem: T) -> (r: bool)
        requires
            old(self).wf(),
        ensures
            final(self).wf(),
            r == (old(self)@.len() < MAXLEN),
            r ==> final(self)@ == old(self)@.push(elem),
            !r ==> final(self)@ == old(self)@,
    {
        if self.len == MAXLEN {
            return false;
        }
        self.data.set(self.len, elem);
        self.len = self.len + 1;
        proof {
            assert(self@ =~= old(self)@.push(elem));
        }
        true
    }

    /// Removes and returns the top element; `None` when empty.
    pub fn pop(&mut self) -> (r: Option<T>)
        requires
            old(self).wf(),
        ensures
            final(self).wf(),
            old(self)@.len() == 0 ==> r is None && final(self)@ == old(self)@,
            old(self)@.len() > 0 ==> r == Some(old(self)@.last()) && final(self)@ == old(self)@.drop_last(),
    {
        if self.len == 0 {
            return None;
        }
        self.len = self.len - 1;
        proof {
            assert(self@ =~= old(self)@.drop_last());
        }
        Some(self.data[self.len])
    }
}

impl<T: Copy + Default> Default for ArrayStack<T> {
    fn default() -> (r: Self)
        ensures
            r.wf(),
            r@ == Seq::<T>::empty(),
    {
        Self::new()
    }
}

impl<T: Copy + Default, const N: usize> From<[T; N]> for ArrayStack<T> {
    /// Holds the first `MAXLEN` elements of `arr`, in order.
    fn from(arr: [T; N]) -> (r: Self)
        ensures
            r.wf(),
            r@ == arr@.subrange(0, if N < MAXLEN { N as int } else { MAXLEN as int }),
    {
        Self::from_slice(arr.as_slice())
    }
}

impl<T: Copy + Default, const N: usize> vstd::std_specs::convert::FromSpecImpl<[T; N]> for ArrayStack<T> {
    open spec fn obeys_from_spec() -> bool {
        false
    }

    open spec fn from_spec(arr: [T; N]) -> Self {
        arbitrary()
    }
}

} // verus!
