use vstd::prelude::*;
use vstd::std_specs::cmp::PartialEqSpec;
use std::collections::VecDeque;
use crate::ds::{
    MAXLEN, link_at, seq_has, first_match, match_positions, slice_find, slice_find_all, displayed, bracketed,
    link_sep, render_links,
};

verus! {

/// One slot of the arena: a value and the slots of its neighbours. A free
/// slot uses `next` to chain the free list.
#[derive(Clone, Copy, Debug)]
struct SNode<T> {
    data: T,
    prev: Option<usize>,
    next: Option<usize>,
}

/// A doubly linked list of at most `MAXLEN` elements inside a fixed arena of
/// `MAXLEN` slots. Links are slot indices; the slots not in use form a free
/// list chained through `next`, headed by `space`.
pub struct SLinkedList<T> {
    nodes: Vec<SNode<T>>,
    space: Option<usize>,
    head: Option<usize>,
    tail: Option<usize>,
    len: usize,
    /// The slots of the elements, front to back.
    order: Ghost<Seq<usize>>,
    /// The free slots, in the order of the free list.
    free: Ghost<Seq<usize>>,
}

impl<T> View for SLinkedList<T> {
    type V = Seq<T>;

    closed spec fn view(&self) -> Seq<T> {
        Seq::new(self.order@.len(), |i: int| self.nodes@[self.order@[i] as int].data)
    }
}

impl<T: Copy> SLinkedList<T> {
    /// Well-formed: the layout is sound, and so at most `MAXLEN` elements
    /// are held.
    pub open spec fn wf(&self) -> bool {
        self.layout_ok() && self@.len() <= MAXLEN
    }

    /// The layout is sound: the element slots and the free slots are distinct and
    /// together account for the whole arena; the links of each element slot
    /// name its neighbours in the list, those of each free slot the next free
    /// slot; `head`, `tail` and `space` name the ends.
    pub closed spec fn layout_ok(&self) -> bool {
        let order = self.order@;
        let free = self.free@;
        let nodes = self.nodes@;
        &&& nodes.len() == MAXLEN
        &&& order.len() == self.len
        &&& order.len() + free.len() == MAXLEN
        &&& forall|i: int| 0 <= i < order.len() ==> #[trigger] order[i] < MAXLEN
        &&& forall|i: int| 0 <= i < free.len() ==> #[trigger] free[i] < MAXLEN
        &&& forall|i: int, j: int| 0 <= i < order.len() && 0 <= j < order.len() && i != j ==> #[trigger] order[i] != #[trigger] order[j]
        &&& forall|i: int, j: int| 0 <= i < free.len() && 0 <= j < free.len() && i != j ==> #[trigger] free[i] != #[trigger] free[j]
        &&& forall|i: int, j: int| 0 <= i < order.len() && 0 <= j < free.len() ==> #[trigger] order[i] != #[trigger] free[j]
        &&& forall|i: int|
            0 <= i < order.len() ==> (#[trigger] nodes[order[i] as int]).prev == link_at(order, i - 1)
                && nodes[order[i] as int].next == link_at(order, i + 1)
        &&& forall|i: int| 0 <= i < free.len() ==> (#[trigger] nodes[free[i] as int]).next == link_at(free, i + 1)
        &&& self.head == link_at(order, 0)
        &&& self.tail == link_at(order, order.len() - 1)
        &&& self.space == link_at(free, 0)
    }

    /// An empty list: every slot free, chained in index order.
    pub fn new() -> (r: Self)
        where
            T: Default,
        ensures
            r.wf(),
            r@ == Seq::<T>::empty(),
    {
        let mut nodes: Vec<SNode<T>> = Vec::with_capacity(MAXLEN);
        let mut i: usize = 0;
        while i < MAXLEN
            invariant
                i <= MAXLEN,
                nodes@.len() == i,
                forall|k: int| 0 <= k < i ==> (#[trigger] nodes@[k]).next == if k + 1 < MAXLEN {
                    Some((k + 1) as usize)
                } else {
                    None::<usize>
                },
            decreases MAXLEN - i,
        {
            let next = if i + 1 < MAXLEN { Some(i + 1) } else { None };
            nodes.push(SNode { data: T::default(), prev: None, next });
            i = i + 1;
        }
        let ghost free = Seq::new(MAXLEN as nat, |k: int| k as usize);
        let r = SLinkedList {
            nodes,
            space: Some(0),
            head: None,
            tail: None,
            len: 0,
            order: Ghost(Seq::empty()),
            free: Ghost(free),
        };
        proof {
            assert(r@ =~= Seq::<T>::empty());
            assert forall|k: int| 0 <= k < free.len() implies (#[trigger] r.nodes@[free[k] as int]).next == link_at(free, k + 1) by {
                assert(free[k] == k);
            }
        }
        r
    }

    /// Takes the first free slot.
    fn take_free(&mut self) -> (r: Option<usize>)
        requires
            old(self).wf(),
        ensures
            r is None <==> old(self).free@.len() == 0,
            r is None ==> *final(self) == *old(self),
            r matches Some(s) ==> s == old(self).free@[0] && final(self).free@ == old(self).free@.drop_first()
                && final(self).nodes == old(self).nodes && final(self).order == old(self).order
                && final(self).head == old(self).head && final(self).tail == old(self).tail
                && final(self).len == old(self).len && final(self).space == link_at(final(self).free@, 0),
    {
        match self.space {
            Some(idx) => {
                self.space = self.nodes[idx].next;
                self.free = Ghost(self.free@.drop_first());
                Some(idx)
            },
            None => None,
        }
    }

    /// Replaces the link fields of slot `k`.
    fn relink(&mut self, k: usize, prev: Option<usize>, next: Option<usize>)
        requires
            k < old(self).nodes@.len(),
        ensures
            final(self).nodes@ == old(self).nodes@.update(
                k as int,
                SNode { data: old(self).nodes@[k as int].data, prev, next },
            ),
            final(self).space == old(self).space,
            final(self).head == old(self).head,
            final(self).tail == old(self).tail,
            final(self).len == old(self).len,
            final(self).order == old(self).order,
            final(self).free == old(self).free,
    {
        let mut n = self.nodes[k];
        n.prev = prev;
        n.next = next;
        self.nodes.set(k, n);
    }

    /// Inserts `elem` so that it lands at position `at`; `false`, and no
    /// change, when `at` is past the end or no slot is free.
    #[verifier::rlimit(60)]
    pub fn insert(&mut self, at: usize, elem: T) -> (r: bool)
        requires
            old(self).wf(),
        ensures
            final(self).wf(),
            r == (old(self)@.len() < MAXLEN && at <= old(self)@.len()),
            r ==> final(self)@ == old(self)@.insert(at as int, elem),
            !r ==> final(self)@ == old(self)@,
    {
        if at > self.len || self.space.is_none() {
            return false;
        }
        let ghost order = self.order@;
        let ghost free0 = self.free@;
        let next_slot = self.slot_at(at);
        let prev_slot = match next_slot {
            Some(c) => self.nodes[c].prev,
            None => self.tail,
        };
        proof {
            assert(next_slot == link_at(order, at as int));
            assert(prev_slot == link_at(order, at - 1));
        }
        let idx = self.take_free().unwrap();
        proof {
            assert(free0[0] == idx);
            assert forall|i: int| 0 <= i < order.len() implies order[i] != idx by {
                assert(order[i] != free0[0]);
            }
        }
        self.nodes.set(idx, SNode { data: elem, prev: prev_slot, next: next_slot });
        match prev_slot {
            Some(p) => {
                let pp = self.nodes[p].prev;
                self.relink(p, pp, Some(idx));
            },
            None => {
                self.head = Some(idx);
            },
        }
        match next_slot {
            Some(n) => {
                let nn = self.nodes[n].next;
                self.relink(n, Some(idx), nn);
            },
            None => {
                self.tail = Some(idx);
            },
        }
        self.len = self.len + 1;
        self.order = Ghost(order.insert(at as int, idx));
        proof {
            let o2 = self.order@;
            let f2 = self.free@;
            let nd = self.nodes@;
            assert forall|i: int| 0 <= i < o2.len() implies (#[trigger] nd[o2[i] as int]).prev == link_at(o2, i - 1)
                && nd[o2[i] as int].next == link_at(o2, i + 1) by {
                if i < at {
                    assert(o2[i] == order[i]);
                    assert(order[i] != idx);
                    if i + 1 < at {
                        assert(order[i] != order[at - 1]);
                    }
                    if (at as int) < order.len() {
                        assert(order[i] != order[at as int]);
                    }
                } else if i == at {
                } else {
                    assert(o2[i] == order[i - 1]);
                    assert(order[i - 1] != idx);
                    if i - 1 > at {
                        assert(order[i - 1] != order[at as int]);
                    }
                    if at > 0 {
                        assert(order[i - 1] != order[at - 1]);
                    }
                }
            }
            assert forall|i: int| 0 <= i < f2.len() implies (#[trigger] nd[f2[i] as int]).next == link_at(f2, i + 1) by {
                assert(f2[i] == free0[i + 1]);
                assert(free0[i + 1] != free0[0]);
                if at > 0 {
                    assert(order[at - 1] != free0[i + 1]);
                }
                if (at as int) < order.len() {
                    assert(order[at as int] != free0[i + 1]);
                }
            }
            assert forall|i: int, j: int| 0 <= i < o2.len() && 0 <= j < o2.len() && i != j implies #[trigger] o2[i] != #[trigger] o2[j] by {
                if i != at && j != at {
                    let oi = if i < at { i } else { i - 1 };
                    let oj = if j < at { j } else { j - 1 };
                    assert(o2[i] == order[oi] && o2[j] == order[oj]);
                } else if i == at {
                    let oj = if j < at { j } else { j - 1 };
                    assert(o2[j] == order[oj]);
                } else {
                    let oi = if i < at { i } else { i - 1 };
                    assert(o2[i] == order[oi]);
                }
            }
            assert forall|i: int, j: int| 0 <= i < o2.len() && 0 <= j < f2.len() implies #[trigger] o2[i] != #[trigger] f2[j] by {
                assert(f2[j] == free0[j + 1]);
                if i == at {
                    assert(free0[0] != free0[j + 1]);
                } else {
                    let oi = if i < at { i } else { i - 1 };
                    assert(o2[i] == order[oi]);
                }
            }
            assert forall|i: int| 0 <= i < o2.len() implies #[trigger] o2[i] < MAXLEN by {
                if i != at {
                    let oi = if i < at { i } else { i - 1 };
                    assert(o2[i] == order[oi]);
                }
            }
            assert forall|i: int| 0 <= i < f2.len() implies #[trigger] f2[i] < MAXLEN by {
                assert(f2[i] == free0[i + 1]);
            }
            assert(self@ =~= old(self)@.insert(at as int, elem)) by {
                assert forall|i: int| 0 <= i < self@.len() implies #[trigger] self@[i] == old(self)@.insert(at as int, elem)[i] by {
                    if i < at {
                        assert(o2[i] == order[i]);
                    } else if i > at {
                        assert(o2[i] == order[i - 1]);
                    }
                }
            }
        }
        true
    }

    /// The slot of the element at position `at`, found by walking the links
    /// from the nearer end; nothing when `at` is the length.
    fn slot_at(&self, at: usize) -> (r: Option<usize>)
        requires
            self.wf(),
            at <= self.len,
        ensures
            r == link_at(self.order@, at as int),
    {
        if at == self.len {
            return None;
        }
        let order = self.order;
        if at <= self.len - 1 - at {
            let mut cur = self.head.unwrap();
            let mut k: usize = 0;
            while k < at
                invariant
                    self.wf(),
                    order == self.order,
                    at < self.len,
                    k <= at,
                    cur == order@[k as int],
                decreases at - k,
            {
                cur = self.nodes[cur].next.unwrap();
                k = k + 1;
            }
            Some(cur)
        } else {
            let mut cur = self.tail.unwrap();
            let mut k: usize = self.len - 1;
            while k > at
                invariant
                    self.wf(),
                    order == self.order,
                    at < self.len,
                    at <= k < self.len,
                    cur == order@[k as int],
                decreases k - at,
            {
                cur = self.nodes[cur].prev.unwrap();
                k = k - 1;
            }
            Some(cur)
        }
    }

    /// Removes and returns the element at `at`, returning its slot to the
    /// free list; `None`, and no change, when `at` is out of bounds.
    pub fn remove(&mut self, at: usize) -> (r: Option<T>)
        requires
            old(self).wf(),
        ensures
            final(self).wf(),
            at < old(self)@.len() ==> r == Some(old(self)@[at as int]) && final(self)@ == old(
                self,
            )@.remove(at as int),
            at >= old(self)@.len() ==> r is None && final(self)@ == old(self)@,
    {
        if at >= self.len {
            return None;
        }
        let ghost order = self.order@;
        let ghost free0 = self.free@;
        let cur = self.slot_at(at).unwrap();
        let e = self.nodes[cur].data;
        let prev_slot = self.nodes[cur].prev;
        let next_slot = self.nodes[cur].next;
        proof {
            assert(cur == order[at as int]);
        }
        match prev_slot {
            Some(p) => {
                let pp = self.nodes[p].prev;
                self.relink(p, pp, next_slot);
            },
            None => {
                self.head = next_slot;
            },
        }
        match next_slot {
            Some(n) => {
                let nn = self.nodes[n].next;
                self.relink(n, prev_slot, nn);
            },
            None => {
                self.tail = prev_slot;
            },
        }
        let sp = self.space;
        self.relink(cur, None, sp);
        self.space = Some(cur);
        self.len = self.len - 1;
        self.order = Ghost(order.remove(at as int));
        self.free = Ghost(seq![cur] + free0);
        proof {
            let o2 = self.order@;
            let f2 = self.free@;
            let nd = self.nodes@;
            assert forall|i: int| 0 <= i < o2.len() implies (#[trigger] nd[o2[i] as int]).prev == link_at(o2, i - 1)
                && nd[o2[i] as int].next == link_at(o2, i + 1) by {
                let oi = if i < at { i } else { i + 1 };
                assert(o2[i] == order[oi]);
                assert(order[oi] != cur);
                if at > 0 && oi != at - 1 {
                    assert(order[oi] != order[at - 1]);
                }
                if at + 1 < order.len() && oi != at + 1 {
                    assert(order[oi] != order[at + 1]);
                }
            }
            assert forall|i: int| 0 <= i < f2.len() implies (#[trigger] nd[f2[i] as int]).next == link_at(f2, i + 1) by {
                if i > 0 {
                    assert(f2[i] == free0[i - 1]);
                    assert(order[at as int] != free0[i - 1]);
                    if at > 0 {
                        assert(order[at - 1] != free0[i - 1]);
                    }
                    if at + 1 < order.len() {
                        assert(order[at + 1] != free0[i - 1]);
                    }
                }
            }
            assert forall|i: int, j: int| 0 <= i < o2.len() && 0 <= j < o2.len() && i != j implies #[trigger] o2[i] != #[trigger] o2[j] by {
                let oi = if i < at { i } else { i + 1 };
                let oj = if j < at { j } else { j + 1 };
                assert(o2[i] == order[oi] && o2[j] == order[oj]);
            }
            assert forall|i: int, j: int| 0 <= i < f2.len() && 0 <= j < f2.len() && i != j implies #[trigger] f2[i] != #[trigger] f2[j] by {
                if i > 0 && j > 0 {
                    assert(f2[i] == free0[i - 1] && f2[j] == free0[j - 1]);
                } else if i == 0 {
                    assert(f2[j] == free0[j - 1]);
                    assert(order[at as int] != free0[j - 1]);
                } else {
                    assert(f2[i] == free0[i - 1]);
                    assert(order[at as int] != free0[i - 1]);
                }
            }
            assert forall|i: int, j: int| 0 <= i < o2.len() && 0 <= j < f2.len() implies #[trigger] o2[i] != #[trigger] f2[j] by {
                let oi = if i < at { i } else { i + 1 };
                assert(o2[i] == order[oi]);
                if j == 0 {
                    assert(order[oi] != order[at as int]);
                } else {
                    assert(f2[j] == free0[j - 1]);
                }
            }
            assert forall|i: int| 0 <= i < o2.len() implies #[trigger] o2[i] < MAXLEN by {
                let oi = if i < at { i } else { i + 1 };
                assert(o2[i] == order[oi]);
            }
            assert forall|i: int| 0 <= i < f2.len() implies #[trigger] f2[i] < MAXLEN by {
                if i > 0 {
                    assert(f2[i] == free0[i - 1]);
                }
            }
            assert(self@ =~= old(self)@.remove(at as int)) by {
                assert forall|i: int| 0 <= i < self@.len() implies #[trigger] self@[i] == old(self)@.remove(at as int)[i] by {
                    let oi = if i < at { i } else { i + 1 };
                    assert(o2[i] == order[oi]);
                }
            }
        }
        Some(e)
    }

    pub fn len(&self) -> (r: usize)
        requires
            self.wf(),
        ensures
            r == self@.len(),
            r <= MAXLEN,
    {
        self.len
    }

    pub fn is_empty(&self) -> (r: bool)
        requires
            self.wf(),
        ensures
            r == (self@.len() == 0),
    {
        self.len == 0
    }

    /// Drops every element: all slots are free again, chained in index order.
    pub fn clear(&mut self)
        where
            T: Default,
        ensures
            final(self).wf(),
            final(self)@ == Seq::<T>::empty(),
    {
        *self = Self::new();
    }

    /// The elements, front to back, by following the links from the head.
    pub fn to_vec(&self) -> (r: Vec<T>)
        requires
            self.wf(),
        ensures
            r@ == self@,
    {
        let mut out: Vec<T> = Vec::with_capacity(self.len);
        let mut idx = self.head;
        let mut k: usize = 0;
        while k < self.len
            invariant
                self.wf(),
                k <= self.len,
                idx == link_at(self.order@, k as int),
                out@ == self@.subrange(0, k as int),
            decreases self.len - k,
        {
            let i = idx.unwrap();
            out.push(self.nodes[i].data);
            idx = self.nodes[i].next;
            proof {
                assert(out@ =~= self@.subrange(0, k as int + 1));
            }
            k = k + 1;
        }
        proof {
            assert(out@ =~= self@);
        }
        out
    }

    /// A list holding the first `MAXLEN` elements of `s`.
    pub fn from_slice(s: &[T]) -> (r: Self)
        where
            T: Default,
        ensures
            r.wf(),
            r@ == s@.subrange(0, if s@.len() < MAXLEN { s@.len() as int } else { MAXLEN as int }),
    {
        let mut l = Self::new();
        let n = if s.len() < MAXLEN { s.len() } else { MAXLEN };
        let mut i: usize = 0;
        while i < n
            invariant
                l.wf(),
                n <= s@.len(),
                n <= MAXLEN,
                i <= n,
                l@ == s@.subrange(0, i as int),
            decreases n - i,
        {
            let len = l.len;
            l.insert(len, s[i]);
            proof {
                assert(l@ =~= s@.subrange(0, i as int + 1));
            }
            i = i + 1;
        }
        l
    }

    /// Exchanges the elements at `i` and `j`; nothing happens when either is
    /// out of bounds.
    pub fn swap(&mut self, i: usize, j: usize)
        requires
            old(self).wf(),
        ensures
            final(self).wf(),
            i < old(self)@.len() && j < old(self)@.len() ==> final(self)@ == swapped(
                old(self)@,
                i as int,
                j as int,
            ),
            !(i < old(self)@.len() && j < old(self)@.len()) ==> final(self)@ == old(self)@,
    {
        if i >= self.len || j >= self.len {
            return;
        }
        if i == j {
            proof {
                assert(swapped(old(self)@, i as int, j as int) =~= old(self)@);
            }
            return;
        }
        let ghost order = self.order@;
        let si = self.slot_at(i).unwrap();
        let sj = self.slot_at(j).unwrap();
        let a = self.nodes[si];
        let b = self.nodes[sj];
        self.nodes.set(si, SNode { data: b.data, prev: a.prev, next: a.next });
        self.nodes.set(sj, SNode { data: a.data, prev: b.prev, next: b.next });
        proof {
            let nd = self.nodes@;
            assert(si == order[i as int] && sj == order[j as int] && si != sj);
            assert forall|k: int| 0 <= k < order.len() implies (#[trigger] nd[order[k] as int]).prev == link_at(order, k - 1)
                && nd[order[k] as int].next == link_at(order, k + 1) by {
                if k != i && k != j {
                    assert(order[k] != si && order[k] != sj);
                }
            }
            assert forall|k: int| 0 <= k < self.free@.len() implies (#[trigger] nd[self.free@[k] as int]).next == link_at(self.free@, k + 1) by {
                assert(order[i as int] != self.free@[k]);
                assert(order[j as int] != self.free@[k]);
            }
            assert(self@ =~= swapped(old(self)@, i as int, j as int)) by {
                assert forall|k: int| 0 <= k < self@.len() implies #[trigger] self@[k] == swapped(old(self)@, i as int, j as int)[k] by {
                    if k != i && k != j {
                        assert(order[k] != si && order[k] != sj);
                    }
                }
            }
        }
    }

    /// Reverses the order of the elements by swapping from both ends.
    pub fn reverse(&mut self)
        requires
            old(self).wf(),
        ensures
            final(self).wf(),
            final(self)@ == old(self)@.reverse(),
    {
        let n = self.len;
        if n == 0 {
            proof {
                assert(old(self)@.reverse() =~= old(self)@);
            }
            return;
        }
        let ghost o = self@;
        let mut i: usize = 0;
        let mut j: usize = n - 1;
        while i < j
            invariant
                self.wf(),
                self@.len() == n,
                o.len() == n,
                n > 0,
                i + j == n - 1,
                i <= j + 1,
                forall|t: int| 0 <= t < i ==> self@[t] == o[n - 1 - t],
                forall|t: int| j < t < n ==> self@[t] == o[n - 1 - t],
                forall|t: int| i <= t <= j ==> self@[t] == o[t],
            decreases n - i,
        {
            self.swap(i, j);
            i = i + 1;
            j = j - 1;
        }
        proof {
            assert(self@ =~= o.reverse());
        }
    }

    pub fn front(&self) -> (r: Option<&T>)
        requires
            self.wf(),
        ensures
            self@.len() == 0 ==> r is None,
            self@.len() > 0 ==> r == Some(&self@[0]),
    {
        match self.head {
            Some(h) => Some(&self.nodes[h].data),
            None => None,
        }
    }

    pub fn back(&self) -> (r: Option<&T>)
        requires
            self.wf(),
        ensures
            self@.len() == 0 ==> r is None,
            self@.len() > 0 ==> r == Some(&self@.last()),
    {
        match self.tail {
            Some(t) => Some(&self.nodes[t].data),
            None => None,
        }
    }

    /// The element at `at`; `at` must be in bounds.
    pub fn index(&self, at: usize) -> (r: &T)
        requires
            self.wf(),
            at < self@.len(),
        ensures
            *r == self@[at as int],
    {
        let s = self.slot_at(at).unwrap();
        &self.nodes[s].data
    }

    /// Any list whose arena is this one's with the value of the element at
    /// `at` replaced by `x` holds `x` there and is well-formed.
    proof fn lemma_value_replaced(&self, at: int, x: T)
        requires
            self.wf(),
            0 <= at < self.order@.len(),
        ensures
            forall|h: SLinkedList<T>|
                #![trigger h.nodes@]
                h.nodes@ == self.nodes@.update(
                    self.order@[at] as int,
                    SNode { data: x, prev: self.nodes@[self.order@[at] as int].prev, next: self.nodes@[self.order@[at] as int].next },
                ) && h.order == self.order && h.free == self.free && h.head == self.head && h.tail == self.tail
                    && h.space == self.space && h.len == self.len ==> h.wf() && h@ == self@.update(at, x),
    {
        let s = self.order@[at];
        assert forall|h: SLinkedList<T>|
            #![trigger h.nodes@]
            h.nodes@ == self.nodes@.update(
                s as int,
                SNode { data: x, prev: self.nodes@[s as int].prev, next: self.nodes@[s as int].next },
            ) && h.order == self.order && h.free == self.free && h.head == self.head && h.tail == self.tail
                && h.space == self.space && h.len == self.len implies h.wf() && h@ == self@.update(at, x) by {
            let order = self.order@;
            assert forall|k: int| 0 <= k < self.free@.len() implies (#[trigger] h.nodes@[self.free@[k] as int]).next == link_at(self.free@, k + 1) by {
                assert(order[at] != self.free@[k]);
            }
            assert(h@ =~= self@.update(at, x)) by {
                assert forall|k: int| 0 <= k < h@.len() implies #[trigger] h@[k] == self@.update(at, x)[k] by {
                    if k != at {
                        assert(order[k] != s);
                    }
                }
            }
        }
    }

    /// The element at `at`, for writing; `at` must be in bounds.
    pub fn index_mut(&mut self, at: usize) -> (r: &mut T)
        requires
            old(self).wf(),
            at < old(self)@.len(),
        ensures
            *r == old(self)@[at as int],
            final(self).wf(),
            final(self)@ == old(self)@.update(at as int, *final(r)),
    {
        let s = self.slot_at(at).unwrap();
        let node = &mut self.nodes[s];
        let r = &mut node.data;
        proof {
            old(self).lemma_value_replaced(at as int, *final(r));
        }
        r
    }

    /// Whether some element equals `elem`.
    pub fn contains(&self, elem: &T) -> (r: bool)
        where
            T: PartialEq,
        requires
            self.wf(),
        ensures
            T::obeys_eq_spec() ==> r == seq_has(self@, elem),
    {
        let v = self.to_vec();
        let r = slice_find(v.as_slice(), v.len(), elem);
        proof {
            assert(v@.subrange(0, v@.len() as int) =~= v@);
        }
        r.is_some()
    }

    /// The position of the first element equal to `elem`.
    pub fn find(&self, elem: &T) -> (r: Option<usize>)
        where
            T: PartialEq,
        requires
            self.wf(),
        ensures
            T::obeys_eq_spec() ==> match r {
                Some(i) => first_match(self@, elem, i as int),
                None => !seq_has(self@, elem),
            },
    {
        let v = self.to_vec();
        let r = slice_find(v.as_slice(), v.len(), elem);
        proof {
            assert(v@.subrange(0, v@.len() as int) =~= v@);
        }
        r
    }

    /// The positions of all elements equal to `elem`, in increasing order.
    pub fn find_all(&self, elem: &T) -> (r: Vec<usize>)
        where
            T: PartialEq,
        requires
            self.wf(),
        ensures
            T::obeys_eq_spec() ==> r@ == match_positions(self@, elem),
    {
        let v = self.to_vec();
        let r = slice_find_all(v.as_slice(), v.len(), elem);
        proof {
            assert(v@.subrange(0, v@.len() as int) =~= v@);
        }
        r
    }

    /// Inserts at the front; `false` when full.
    pub fn push_front(&mut self, elem: T) -> (r: bool)
        requires
            old(self).wf(),
        ensures
            final(self).wf(),
            r == (old(self)@.len() < MAXLEN),
            r ==> final(self)@ == seq![elem] + old(self)@,
            !r ==> final(self)@ == old(self)@,
    {
        let r = self.insert(0, elem);
        proof {
            if r {
                assert(final(self)@ =~= seq![elem] + old(self)@) by {}
            }
        }
        r
    }

    /// Inserts at the back; `false` when full.
    pub fn push_back(&mut self, elem: T) -> (r: bool)
        requires
            old(self).wf(),
        ensures
            final(self).wf(),
            r == (old(self)@.len() < MAXLEN),
            r ==> final(self)@ == old(self)@.push(elem),
            !r ==> final(self)@ == old(self)@,
    {
        let n = self.len;
        let r = self.insert(n, elem);
        proof {
            if r {
                assert(final(self)@ =~= old(self)@.push(elem)) by {}
            }
        }
        r
    }

    /// Removes and returns the front element; `None` when empty.
    pub fn pop_front(&mut self) -> (r: Option<T>)
        requires
            old(self).wf(),
        ensures
            final(self).wf(),
            old(self)@.len() == 0 ==> r is None && final(self)@ == old(self)@,
            old(self)@.len() > 0 ==> r == Some(old(self)@[0]) && final(self)@ == old(self)@.drop_first(),
    {
        let r = self.remove(0);
        proof {
            if old(self)@.len() > 0 {
                assert(final(self)@ =~= old(self)@.drop_first()) by {}
            }
        }
        r
    }

    /// Removes and returns the back element; `None` when empty.
    pub fn pop_back(&mut self) -> (r: Option<T>)
        requires
            old(self).wf(),
        ensures
            final(self).wf(),
            old(self)@.len() == 0 ==> r is None && final(self)@ == old(self)@,
            old(self)@.len() > 0 ==> r == Some(old(self)@.last()) && final(self)@ == old(self)@.drop_last(),
    {
        if self.len == 0 {
            return None;
        }
        let n = self.len - 1;
        let r = self.remove(n);
        proof {
            assert(final(self)@ =~= old(self)@.drop_last()) by {}
        }
        r
    }

    /// A borrowing iterator that follows the links from either end.
    pub fn iter(&self) -> (r: Iter<'_, T>)
        requires
            self.wf(),
        ensures
            r.wf(),
            r@ == self@,
    {
        let r = Iter { list: self, front: 0, back: self.len, front_slot: self.head, back_slot: self.tail };
        proof {
            assert(r@ =~= self@);
        }
        r
    }

    /// An iterator that hands out each element in turn for writing,
    /// following the links from the head.
    pub fn iter_mut(&mut self) -> (r: IterMut<'_, T>)
        requires
            old(self).wf(),
        ensures
            r.wf(),
            r.list() == old(self)@,
            r.pos() == 0,
            r.end() == old(self)@.len(),
    {
        let front_slot = self.head;
        let back_slot = self.tail;
        let back = self.len;
        IterMut { list: self, front: 0, back, front_slot, back_slot }
    }

    /// A consuming iterator over the elements, from either end.
    pub fn into_iter(self) -> (r: IntoIter<T>)
        requires
            self.wf(),
        ensures
            r@ == self@,
    {
        let v = self.to_vec();
        let mut items: VecDeque<T> = VecDeque::new();
        let mut buf = v;
        let ghost orig = buf@;
        while buf.len() > 0
            invariant
                orig == buf@ + items@,
            decreases buf@.len(),
        {
            let x = buf.pop().unwrap();
            items.push_front(x);
            proof {
                assert(orig =~= buf@ + items@);
            }
        }
        proof {
            assert(items@ =~= orig);
        }
        IntoIter { items }
    }

    /// The elements as `Display` writes them: `[a <-> b <-> c]`.
    pub fn to_string(&self) -> (r: String)
        where
            T: std::fmt::Display,
        requires
            self.wf(),
        ensures
            exists|texts: Seq<String>| displayed(self@, texts) && r@ == bracketed(texts, link_sep()),
    {
        let v = self.to_vec();
        render_links(v.as_slice())
    }
}

/// `s` with the elements at `i` and `j` exchanged.
pub open spec fn swapped<T>(s: Seq<T>, i: int, j: int) -> Seq<T> {
    s.update(i, s[j]).update(j, s[i])
}

impl<T: Copy + Default> Default for SLinkedList<T> {
    fn default() -> (r: Self)
        ensures
            r.wf(),
            r@ == Seq::<T>::empty(),
    {
        Self::new()
    }
}

impl<T: Copy + Default, const N: usize> From<[T; N]> for SLinkedList<T> {
    /// Holds the first `MAXLEN` elements of `arr`, in order.
    fn from(arr: [T; N]) -> (r: Self)
        ensures
            r.wf(),
            r@ == arr@.subrange(0, if N < MAXLEN { N as int } else { MAXLEN as int }),
    {
        Self::from_slice(arr.as_slice())
    }
}

impl<T: Copy + Default, const N: usize> vstd::std_specs::convert::FromSpecImpl<[T; N]> for SLinkedList<T> {
    open spec fn obeys_from_spec() -> bool {
        false
    }

    open spec fn from_spec(arr: [T; N]) -> Self {
        arbitrary()
    }
}

/// The consuming iterator of an [`SLinkedList`].
pub struct IntoIter<T> {
    items: VecDeque<T>,
}

impl<T> View for IntoIter<T> {
    type V = Seq<T>;

    closed spec fn view(&self) -> Seq<T> {
        self.items@
    }
}

impl<T> IntoIter<T> {
    /// Takes the next element from the front.
    pub fn next(&mut self) -> (r: Option<T>)
        ensures
            old(self)@.len() == 0 ==> r is None && final(self)@ == old(self)@,
            old(self)@.len() > 0 ==> r == Some(old(self)@[0]) && final(self)@ == old(self)@.drop_first(),
    {
        self.items.pop_front()
    }

    /// Takes the next element from the back.
    pub fn next_back(&mut self) -> (r: Option<T>)
        ensures
            old(self)@.len() == 0 ==> r is None && final(self)@ == old(self)@,
            old(self)@.len() > 0 ==> r == Some(old(self)@.last()) && final(self)@ == old(self)@.drop_last(),
    {
        self.items.pop_back()
    }
}

/// A borrowing iterator over an [`SLinkedList`]: it follows the links from
/// both ends and stops where they meet.
pub struct Iter<'a, T> {
    list: &'a SLinkedList<T>,
    front: usize,
    back: usize,
    front_slot: Option<usize>,
    back_slot: Option<usize>,
}

impl<'a, T: Copy> View for Iter<'a, T> {
    type V = Seq<T>;

    closed spec fn view(&self) -> Seq<T> {
        self.list@.subrange(self.front as int, self.back as int)
    }
}

impl<'a, T: Copy> Iter<'a, T> {
    /// Well-formed: the remaining range lies inside the list and the two
    /// slots are those of its ends.
    pub closed spec fn wf(&self) -> bool {
        &&& self.list.wf()
        &&& self.front <= self.back <= self.list.len
        &&& self.front_slot == link_at(self.list.order@, self.front as int)
        &&& self.back_slot == link_at(self.list.order@, self.back - 1)
    }

    /// Yields the next element from the front.
    pub fn next(&mut self) -> (r: Option<&'a T>)
        requires
            old(self).wf(),
        ensures
            final(self).wf(),
            old(self)@.len() == 0 ==> r is None && final(self)@ == old(self)@,
            old(self)@.len() > 0 ==> r == Some(&old(self)@[0]) && final(self)@ == old(self)@.drop_first(),
    {
        if self.front == self.back {
            return None;
        }
        let s = self.front_slot.unwrap();
        let r = &self.list.nodes[s].data;
        self.front_slot = self.list.nodes[s].next;
        self.front = self.front + 1;
        proof {
            assert(self@ =~= old(self)@.drop_first());
        }
        Some(r)
    }

    /// Yields the next element from the back.
    pub fn next_back(&mut self) -> (r: Option<&'a T>)
        requires
            old(self).wf(),
        ensures
            final(self).wf(),
            old(self)@.len() == 0 ==> r is None && final(self)@ == old(self)@,
            old(self)@.len() > 0 ==> r == Some(&old(self)@.last()) && final(self)@ == old(self)@.drop_last(),
    {
        if self.front == self.back {
            return None;
        }
        let s = self.back_slot.unwrap();
        let r = &self.list.nodes[s].data;
        self.back_slot = self.list.nodes[s].prev;
        self.back = self.back - 1;
        proof {
            assert(self@ =~= old(self)@.drop_last());
        }
        Some(r)
    }
}

/// A writing iterator over an [`SLinkedList`]: each call of `next` lends
/// the next element, front to back.
pub struct IterMut<'a, T> {
    list: &'a mut SLinkedList<T>,
    front: usize,
    back: usize,
    front_slot: Option<usize>,
    back_slot: Option<usize>,
}

impl<'a, T: Copy> IterMut<'a, T> {
    /// The list as the iterator sees it now.
    pub closed spec fn list(&self) -> Seq<T> {
        self.list@
    }

    /// How many elements have been handed out.
    pub closed spec fn pos(&self) -> nat {
        self.front as nat
    }

    /// Where the elements still to hand out end: those from `pos()` up to
    /// here.
    pub closed spec fn end(&self) -> nat {
        self.back as nat
    }

    /// Well-formed: the remaining range lies inside the list and the two
    /// slots are those of its ends.
    pub closed spec fn wf(&self) -> bool {
        &&& self.list.wf()
        &&& self.front <= self.back <= self.list.len
        &&& self.front_slot == link_at(self.list.order@, self.front as int)
        &&& self.back_slot == link_at(self.list.order@, self.back - 1)
    }

    /// Lends the next element for writing; `None` once all were handed out.
    pub fn next(&mut self) -> (r: Option<&mut T>)
        requires
            old(self).wf(),
        ensures
            final(self).wf(),
            final(self).end() == old(self).end(),
            old(self).pos() == old(self).end() ==> r is None && final(self).list() == old(self).list()
                && final(self).pos() == old(self).pos(),
            old(self).pos() < old(self).end() ==> r is Some && *r->Some_0 == old(self).list()[old(self).pos() as int]
                && final(self).list() == old(self).list().update(old(self).pos() as int, *final(r->Some_0))
                && final(self).pos() == old(self).pos() + 1,
    {
        if self.front == self.back {
            return None;
        }
        let s = self.front_slot.unwrap();
        self.front_slot = self.list.nodes[s].next;
        let at = self.front;
        self.front = self.front + 1;
        let ghost before = *self.list;
        let node = &mut self.list.nodes[s];
        let r = &mut node.data;
        proof {
            before.lemma_value_replaced(at as int, *final(r));
        }
        Some(r)
    }

    /// Lends the last element still to hand out, for writing; `None` once
    /// the two ends meet.
    pub fn next_back(&mut self) -> (r: Option<&mut T>)
        requires
            old(self).wf(),
        ensures
            final(self).wf(),
            final(self).pos() == old(self).pos(),
            old(self).pos() == old(self).end() ==> r is None && final(self).list() == old(self).list()
                && final(self).end() == old(self).end(),
            old(self).pos() < old(self).end() ==> r is Some && *r->Some_0 == old(self).list()[old(self).end() - 1]
                && final(self).list() == old(self).list().update(old(self).end() - 1, *final(r->Some_0))
                && final(self).end() == old(self).end() - 1,
    {
        if self.front == self.back {
            return None;
        }
        let s = self.back_slot.unwrap();
        self.back_slot = self.list.nodes[s].prev;
        self.back = self.back - 1;
        let at = self.back;
        let ghost before = *self.list;
        let node = &mut self.list.nodes[s];
        let r = &mut node.data;
        proof {
            before.lemma_value_replaced(at as int, *final(r));
        }
        Some(r)
    }
}

} // verus!
