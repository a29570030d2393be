use vstd::prelude::*;
use vstd::std_specs::cmp::PartialEqSpec;
use crate::ds::{displayed, bracketed, link_sep, render_links, link_at, seq_has, first_match, match_positions};

verus! {

/// A cell of a [`LinkedList`]: a value and the slots of its neighbours.
pub struct Node<T> {
    pub val: T,
    pub prev: Option<usize>,
    pub next: Option<usize>,
}

impl<T> Node<T> {
    /// A cell holding `val`, linked to nothing.
    pub fn new(val: T) -> (r: Self)
        ensures
            r.val == val,
            r.prev is None,
            r.next is None,
    {
        Node { val, prev: None, next: None }
    }

    /// The value of the cell.
    pub fn into_val(self) -> (r: T)
        ensures
            r == self.val,
    {
        self.val
    }
}

/// The cell in slot `s`.
pub open spec fn node_of<T>(slots: Seq<Option<Node<T>>>, s: usize) -> Node<T> {
    slots[s as int]->Some_0
}

/// A doubly linked list whose cells live in an arena of slots addressed by
/// index: `prev` and `next` are slot indices, the list owns every cell, and
/// freed slots are reused. Positional operations walk from the nearer end;
/// cursors splice in constant time.
pub struct LinkedList<T> {
    slots: Vec<Option<Node<T>>>,
    free: Vec<usize>,
    head: Option<usize>,
    tail: Option<usize>,
    len: usize,
    /// The slots of the elements, front to back.
    order: Ghost<Seq<usize>>,
}

impl<T> View for LinkedList<T> {
    type V = Seq<T>;

    closed spec fn view(&self) -> Seq<T> {
        Seq::new(self.order@.len(), |i: int| node_of(self.slots@, self.order@[i]).val)
    }
}

/// The links of the cells in `sl` follow `order`.
spec fn links_follow<T>(sl: Seq<Option<Node<T>>>, order: Seq<usize>) -> bool {
    forall|i: int|
        0 <= i < order.len() ==> (#[trigger] node_of(sl, order[i])).prev == link_at(order, i - 1) && node_of(sl, order[i]).next
            == link_at(order, i + 1)
}

/// Splicing a cell in slot `s` at position `at`, and pointing its two
/// neighbours at it, keeps the links following the order.
proof fn lemma_links_after_insert<T>(
    sl0: Seq<Option<Node<T>>>,
    sl: Seq<Option<Node<T>>>,
    order: Seq<usize>,
    at: int,
    s: usize,
    val: T,
    prev_slot: Option<usize>,
    next_slot: Option<usize>,
)
    requires
        links_follow(sl0, order),
        forall|i: int, j: int| 0 <= i < order.len() && 0 <= j < order.len() && i != j ==> #[trigger] order[i] != #[trigger] order[j],
        forall|i: int| 0 <= i < order.len() ==> #[trigger] order[i] < sl0.len() && order[i] != s,
        sl.len() >= sl0.len(),
        0 <= at <= order.len(),
        prev_slot == link_at(order, at - 1),
        next_slot == link_at(order, at),
        node_of(sl, s) == (Node { val, prev: prev_slot, next: next_slot }),
        at > 0 ==> node_of(sl, order[at - 1]) == (Node {
            val: node_of(sl0, order[at - 1]).val,
            prev: node_of(sl0, order[at - 1]).prev,
            next: Some(s),
        }),
        at < order.len() ==> node_of(sl, order[at]) == (Node {
            val: node_of(sl0, order[at]).val,
            prev: Some(s),
            next: node_of(sl0, order[at]).next,
        }),
        forall|k: int|
            0 <= k < sl0.len() && k != s && (at == 0 || k != order[at - 1]) && (at >= order.len() || k != order[at])
                ==> #[trigger] sl[k] == sl0[k],
    ensures
        links_follow(sl, order.insert(at, s)),
{
    let o2 = order.insert(at, s);
    assert forall|i: int| 0 <= i < o2.len() implies (#[trigger] node_of(sl, o2[i])).prev == link_at(o2, i - 1)
        && node_of(sl, o2[i]).next == link_at(o2, i + 1) by {
        if i < at {
            assert(o2[i] == order[i]);
            assert(node_of(sl0, order[i]).prev == link_at(order, i - 1));
            if i + 1 < at {
                assert(order[i] != order[at - 1]);
                if at < order.len() {
                    assert(order[i] != order[at]);
                }
                assert(sl[order[i] as int] == sl0[order[i] as int]);
            }
        } else if i == at {
        } else if i == at + 1 {
            assert(o2[i] == order[at]);
            assert(node_of(sl0, order[at]).next == link_at(order, at + 1));
        } else {
            assert(o2[i] == order[i - 1]);
            assert(node_of(sl0, order[i - 1]).prev == link_at(order, i - 2));
            assert(order[i - 1] != order[at]);
            if at > 0 {
                assert(order[i - 1] != order[at - 1]);
            }
            assert(sl[order[i - 1] as int] == sl0[order[i - 1] as int]);
        }
    }
}

impl<T> LinkedList<T> {
    /// Well-formed: the element slots are distinct occupied slots, the free
    /// slots distinct empty ones; the links of each cell name its neighbours
    /// in the list, and `head` and `tail` name the ends.
    pub closed spec fn wf(&self) -> bool {
        let o = self.order@;
        let sl = self.slots@;
        let fr = self.free@;
        &&& o.len() == self.len
        &&& forall|i: int| 0 <= i < o.len() ==> #[trigger] o[i] < sl.len() && sl[o[i] as int] is Some
        &&& forall|i: int, j: int| 0 <= i < o.len() && 0 <= j < o.len() && i != j ==> #[trigger] o[i] != #[trigger] o[j]
        &&& forall|i: int| 0 <= i < fr.len() ==> #[trigger] fr[i] < sl.len() && sl[fr[i] as int] is None
        &&& forall|i: int, j: int| 0 <= i < fr.len() && 0 <= j < fr.len() && i != j ==> #[trigger] fr[i] != #[trigger] fr[j]
        &&& forall|i: int|
            0 <= i < o.len() ==> (#[trigger] node_of(sl, o[i])).prev == link_at(o, i - 1) && node_of(sl, o[i]).next
                == link_at(o, i + 1)
        &&& self.head == link_at(o, 0)
        &&& self.tail == link_at(o, o.len() - 1)
    }

    /// An empty list.
    pub fn new() -> (r: Self)
        ensures
            r.wf(),
            r@ == Seq::<T>::empty(),
    {
        let r = LinkedList { slots: Vec::new(), free: Vec::new(), head: None, tail: None, len: 0, order: Ghost(Seq::empty()) };
        proof {
            assert(r@ =~= Seq::<T>::empty());
        }
        r
    }

    fn node_ref(&self, s: usize) -> (r: &Node<T>)
        requires
            s < self.slots@.len(),
            self.slots@[s as int] is Some,
        ensures
            *r == node_of(self.slots@, s),
    {
        self.slots[s].as_ref().unwrap()
    }

    /// Replaces the links of the cell in slot `s`.
    fn relink(&mut self, s: usize, prev: Option<usize>, next: Option<usize>)
        requires
            s < old(self).slots@.len(),
            old(self).slots@[s as int] is Some,
        ensures
            final(self).slots@ == old(self).slots@.update(
                s as int,
                Some(Node { val: node_of(old(self).slots@, s).val, prev, next }),
            ),
            final(self).free == old(self).free,
            final(self).head == old(self).head,
            final(self).tail == old(self).tail,
            final(self).len == old(self).len,
            final(self).order == old(self).order,
    {
        let mut tmp: Option<Node<T>> = None;
        self.slots.set_and_swap(s, &mut tmp);
        let mut n = tmp.unwrap();
        n.prev = prev;
        n.next = next;
        self.slots.set(s, Some(n));
    }

    /// Puts `node` in a free slot, or in a new one, and returns the slot.
    fn put_slot(&mut self, node: Node<T>) -> (s: usize)
        requires
            old(self).wf(),
        ensures
            s < final(self).slots@.len(),
            final(self).slots@[s as int] == Some(node),
            s < old(self).slots@.len() ==> old(self).slots@[s as int] is None,
            final(self).slots@.len() >= old(self).slots@.len(),
            forall|k: int| 0 <= k < old(self).slots@.len() && k != s ==> final(self).slots@[k] == old(self).slots@[k],
            forall|k: int| #![trigger final(self).slots@[k]] old(self).slots@.len() <= k < final(self).slots@.len() ==> k == s,
            old(self).free@.len() > 0 ==> final(self).free@ == old(self).free@.drop_last() && s == old(self).free@.last(),
            old(self).free@.len() == 0 ==> final(self).free@ == old(self).free@,
            final(self).head == old(self).head,
            final(self).tail == old(self).tail,
            final(self).len == old(self).len,
            final(self).order == old(self).order,
    {
        match self.free.pop() {
            Some(s) => {
                proof {
                    assert(old(self).free@[old(self).free@.len() - 1] == s);
                }
                self.slots.set(s, Some(node));
                s
            },
            None => {
                self.slots.push(Some(node));
                self.slots.len() - 1
            },
        }
    }

    /// The slot of the element at position `at`, found by walking the links
    /// from the nearer end; nothing when `at` is the length.
    fn slot_at(&self, at: usize) -> (r: Option<usize>)
        requires
            self.wf(),
            at <= self.len,
        ensures
            r == link_at(self.order@, at as int),
    {
        if at == self.len {
            return None;
        }
        let order = self.order;
        if at <= self.len - 1 - at {
            let mut cur = self.head.unwrap();
            let mut k: usize = 0;
            while k < at
                invariant
                    self.wf(),
                    order == self.order,
                    at < self.len,
                    k <= at,
                    cur == order@[k as int],
                decreases at - k,
            {
                cur = self.node_ref(cur).next.unwrap();
                k = k + 1;
            }
            Some(cur)
        } else {
            let mut cur = self.tail.unwrap();
            let mut k: usize = self.len - 1;
            while k > at
                invariant
                    self.wf(),
                    order == self.order,
                    at < self.len,
                    at <= k < self.len,
                    cur == order@[k as int],
                decreases k - at,
            {
                cur = self.node_ref(cur).prev.unwrap();
                k = k - 1;
            }
            Some(cur)
        }
    }

    /// Links a new cell holding `val` in at position `at`, before the cell in
    /// `next_slot` (after the tail when that is nothing), and returns its slot.
    #[verifier::rlimit(60)]
    fn link_in(&mut self, at: usize, next_slot: Option<usize>, val: T) -> (s: usize)
        requires
            old(self).wf(),
            at <= old(self).len,
            old(self).len < usize::MAX,
            next_slot == link_at(old(self).order@, at as int),
        ensures
            final(self).wf(),
            final(self).order@ == old(self).order@.insert(at as int, s),
            final(self)@ == old(self)@.insert(at as int, val),
    {
        let ghost order = self.order@;
        let ghost sl0 = self.slots@;
        let prev_slot = match next_slot {
            Some(c) => self.node_ref(c).prev,
            None => self.tail,
        };
        proof {
            if next_slot is Some {
                assert(node_of(sl0, order[at as int]).prev == link_at(order, at - 1));
            }
            assert(prev_slot == link_at(order, at - 1));
        }
        let s = self.put_slot(Node { val, prev: prev_slot, next: next_slot });
        let ghost sl1 = self.slots@;
        proof {
            assert forall|i: int| 0 <= i < order.len() implies order[i] != s by {
                if s < sl0.len() {
                    assert(sl0[order[i] as int] is Some);
                }
            }
        }
        match prev_slot {
            Some(p) => {
                let pp = self.node_ref(p).prev;
                self.relink(p, pp, Some(s));
            },
            None => {
                self.head = Some(s);
            },
        }
        match next_slot {
            Some(n) => {
                let nn = self.node_ref(n).next;
                self.relink(n, Some(s), nn);
            },
            None => {
                self.tail = Some(s);
            },
        }
        self.len = self.len + 1;
        self.order = Ghost(order.insert(at as int, s));
        proof {
            let o2 = self.order@;
            let sl = self.slots@;
            let fr = self.free@;
            assert forall|i: int| 0 <= i < o2.len() implies #[trigger] o2[i] < sl.len() && sl[o2[i] as int] is Some by {
                if i != at {
                    let oi = if i < at { i } else { i - 1 };
                    assert(o2[i] == order[oi]);
                }
            }
            assert forall|k: int| 0 <= k < sl0.len() && k != s && (at == 0 || k != order[at - 1]) && ((at as int) >= order.len() || k != order[at as int]) implies #[trigger] sl[k] == sl0[k] by {
                assert(sl1[k] == sl0[k]);
            }
            if at > 0 {
                let p = order[at - 1];
                assert(p != s);
                if (at as int) < order.len() {
                    assert(order[at - 1] != order[at as int]);
                }
                assert(sl1[p as int] == sl0[p as int]);
                assert(node_of(sl, p) == Node { val: node_of(sl0, p).val, prev: node_of(sl0, p).prev, next: Some(s) });
            }
            if (at as int) < order.len() {
                let n = order[at as int];
                assert(n != s);
                assert(sl1[n as int] == sl0[n as int]);
                assert(node_of(sl, n) == Node { val: node_of(sl0, n).val, prev: Some(s), next: node_of(sl0, n).next });
            }
            assert(node_of(sl, s) == Node { val, prev: prev_slot, next: next_slot });
            lemma_links_after_insert(sl0, sl, order, at as int, s, val, prev_slot, next_slot);
            assert forall|i: int, j: int| 0 <= i < o2.len() && 0 <= j < o2.len() && i != j implies #[trigger] o2[i] != #[trigger] o2[j] by {
                if i != at && j != at {
                    let oi = if i < at { i } else { i - 1 };
                    let oj = if j < at { j } else { j - 1 };
                    assert(o2[i] == order[oi] && o2[j] == order[oj]);
                } else if i == at {
                    let oj = if j < at { j } else { j - 1 };
                    assert(o2[j] == order[oj]);
                } else {
                    let oi = if i < at { i } else { i - 1 };
                    assert(o2[i] == order[oi]);
                }
            }
            assert forall|i: int| 0 <= i < fr.len() implies #[trigger] fr[i] < sl.len() && sl[fr[i] as int] is None by {
                assert(fr[i] == old(self).free@[i]);
                if old(self).free@.len() > 0 {
                    assert(old(self).free@[i] != old(self).free@[old(self).free@.len() - 1]);
                }
                if at > 0 {
                    assert(sl0[order[at - 1] as int] is Some);
                }
                if (at as int) < order.len() {
                    assert(sl0[order[at as int] as int] is Some);
                }
            }
            assert forall|i: int, j: int| 0 <= i < fr.len() && 0 <= j < fr.len() && i != j implies #[trigger] fr[i] != #[trigger] fr[j] by {
                assert(fr[i] == old(self).free@[i] && fr[j] == old(self).free@[j]);
            }
            assert(self@ =~= old(self)@.insert(at as int, val)) by {
                assert forall|i: int| 0 <= i < self@.len() implies #[trigger] self@[i] == old(self)@.insert(at as int, val)[i] by {
                    if i < at {
                        assert(o2[i] == order[i]);
                    } else if i > at {
                        assert(o2[i] == order[i - 1]);
                    }
                }
            }
        }
        s
    }

    /// Unlinks the element at position `at`, whose cell is in slot `s`, frees
    /// the slot and returns the value.
    #[verifier::rlimit(60)]
    fn unlink(&mut self, at: usize, s: usize) -> (r: T)
        requires
            old(self).wf(),
            at < old(self).len,
            s == old(self).order@[at as int],
        ensures
            final(self).wf(),
            final(self).order@ == old(self).order@.remove(at as int),
            r == old(self)@[at as int],
            final(self)@ == old(self)@.remove(at as int),
    {
        let ghost order = self.order@;
        let ghost sl0 = self.slots@;
        let ghost fr0 = self.free@;
        let prev_slot = self.node_ref(s).prev;
        let next_slot = self.node_ref(s).next;
        proof {
            assert(prev_slot == link_at(order, at - 1));
            assert(next_slot == link_at(order, at + 1));
        }
        match prev_slot {
            Some(p) => {
                let pp = self.node_ref(p).prev;
                self.relink(p, pp, next_slot);
            },
            None => {
                self.head = next_slot;
            },
        }
        match next_slot {
            Some(n) => {
                let nn = self.node_ref(n).next;
                self.relink(n, prev_slot, nn);
            },
            None => {
                self.tail = prev_slot;
            },
        }
        let mut tmp: Option<Node<T>> = None;
        self.slots.set_and_swap(s, &mut tmp);
        let node = tmp.unwrap();
        self.free.push(s);
        self.len = self.len - 1;
        self.order = Ghost(order.remove(at as int));
        proof {
            let o2 = self.order@;
            let sl = self.slots@;
            let fr = self.free@;
            assert forall|i: int| 0 <= i < o2.len() implies #[trigger] o2[i] < sl.len() && sl[o2[i] as int] is Some by {
                let oi = if i < at { i } else { i + 1 };
                assert(o2[i] == order[oi]);
                assert(order[oi] != s);
            }
            assert forall|k: int| 0 <= k < sl0.len() && k != s && (at == 0 || k != order[at - 1]) && (at + 1 >= order.len() || k != order[at + 1]) implies #[trigger] sl[k] == sl0[k] by {
            }
            assert forall|i: int| 0 <= i < o2.len() implies (#[trigger] node_of(sl, o2[i])).prev == link_at(o2, i - 1)
                && node_of(sl, o2[i]).next == link_at(o2, i + 1) by {
                let oi = if i < at { i } else { i + 1 };
                assert(o2[i] == order[oi]);
                assert(order[oi] != s);
                if at > 0 && oi == at - 1 {
                    assert(node_of(sl0, order[oi]).prev == link_at(order, oi - 1));
                    if at + 1 < order.len() {
                        assert(order[oi] != order[at + 1]);
                    }
                } else if at + 1 < order.len() && oi == at + 1 {
                    assert(node_of(sl0, order[oi]).next == link_at(order, oi + 1));
                    if at > 0 {
                        assert(order[oi] != order[at - 1]);
                    }
                } else {
                    if at > 0 {
                        assert(order[oi] != order[at - 1]);
                    }
                    if at + 1 < order.len() {
                        assert(order[oi] != order[at + 1]);
                    }
                    assert(sl[order[oi] as int] == sl0[order[oi] as int]);
                }
            }
            assert forall|i: int, j: int| 0 <= i < o2.len() && 0 <= j < o2.len() && i != j implies #[trigger] o2[i] != #[trigger] o2[j] by {
                let oi = if i < at { i } else { i + 1 };
                let oj = if j < at { j } else { j + 1 };
                assert(o2[i] == order[oi] && o2[j] == order[oj]);
            }
            assert forall|i: int| 0 <= i < fr.len() implies #[trigger] fr[i] < sl.len() && sl[fr[i] as int] is None by {
                if i < fr0.len() {
                    assert(fr[i] == fr0[i]);
                    assert(sl0[s as int] is Some);
                    if at > 0 {
                        assert(sl0[order[at - 1] as int] is Some);
                    }
                    if at + 1 < order.len() {
                        assert(sl0[order[at + 1] as int] is Some);
                    }
                }
            }
            assert forall|i: int, j: int| 0 <= i < fr.len() && 0 <= j < fr.len() && i != j implies #[trigger] fr[i] != #[trigger] fr[j] by {
                if i < fr0.len() && j < fr0.len() {
                    assert(fr[i] == fr0[i] && fr[j] == fr0[j]);
                } else if i < fr0.len() {
                    assert(fr[i] == fr0[i]);
                    assert(sl0[s as int] is Some);
                } else {
                    assert(fr[j] == fr0[j]);
                    assert(sl0[s as int] is Some);
                }
            }
            assert(self@ =~= old(self)@.remove(at as int)) by {
                assert forall|i: int| 0 <= i < self@.len() implies #[trigger] self@[i] == old(self)@.remove(at as int)[i] by {
                    let oi = if i < at { i } else { i + 1 };
                    assert(o2[i] == order[oi]);
                    assert(order[oi] != s);
                }
            }
        }
        node.val
    }

    /// The value of the cell in slot `s`, for writing.
    fn val_mut(&mut self, s: usize) -> (r: &mut T)
        requires
            s < old(self).slots@.len(),
            old(self).slots@[s as int] is Some,
        ensures
            *r == node_of(old(self).slots@, s).val,
            final(self).slots@ == old(self).slots@.update(
                s as int,
                Some(Node { val: *final(r), prev: node_of(old(self).slots@, s).prev, next: node_of(old(self).slots@, s).next }),
            ),
            final(self).free == old(self).free,
            final(self).head == old(self).head,
            final(self).tail == old(self).tail,
            final(self).len == old(self).len,
            final(self).order == old(self).order,
    {
        let slot = &mut self.slots[s];
        let node = slot.as_mut().unwrap();
        &mut node.val
    }

    /// A list whose slots are this one's with the value of the element at
    /// `at` replaced by `x` holds `x` there and is well-formed.
    proof fn lemma_value_replaced(&self, at: int, x: T)
        requires
            self.wf(),
            0 <= at < self.order@.len(),
        ensures
            forall|h: LinkedList<T>|
                #![trigger h.slots@]
                h.slots@ == self.slots@.update(
                    self.order@[at] as int,
                    Some(Node { val: x, prev: node_of(self.slots@, self.order@[at]).prev, next: node_of(self.slots@, self.order@[at]).next }),
                ) && h.order == self.order && h.free == self.free && h.head == self.head && h.tail == self.tail
                    && h.len == self.len ==> h.wf() && h@ == self@.update(at, x),
    {
        let s = self.order@[at];
        assert forall|h: LinkedList<T>|
            #![trigger h.slots@]
            h.slots@ == self.slots@.update(
                s as int,
                Some(Node { val: x, prev: node_of(self.slots@, s).prev, next: node_of(self.slots@, s).next }),
            ) && h.order == self.order && h.free == self.free && h.head == self.head && h.tail == self.tail
                && h.len == self.len implies h.wf() && h@ == self@.update(at, x) by {
            let order = self.order@;
            assert forall|k: int| 0 <= k < self.free@.len() implies #[trigger] self.free@[k] < h.slots@.len() && h.slots@[self.free@[k] as int] is None by {
                assert(self.slots@[s as int] is Some);
            }
            assert forall|k: int| 0 <= k < order.len() implies (#[trigger] node_of(h.slots@, order[k])).prev == link_at(order, k - 1)
                && node_of(h.slots@, order[k]).next == link_at(order, k + 1) by {
                assert(node_of(self.slots@, order[k]).prev == link_at(order, k - 1));
                if order[k] != s {
                    assert(h.slots@[order[k] as int] == self.slots@[order[k] as int]);
                } else {
                    assert(node_of(h.slots@, s).prev == node_of(self.slots@, s).prev);
                    assert(node_of(h.slots@, s).next == node_of(self.slots@, s).next);
                }
            }
            assert(h@ =~= self@.update(at, x)) by {
                assert forall|k: int| 0 <= k < h@.len() implies #[trigger] h@[k] == self@.update(at, x)[k] by {
                    if k != at {
                        assert(order[k] != s);
                    }
                }
            }
        }
    }

    pub fn len(&self) -> (r: usize)
        requires
            self.wf(),
        ensures
            r == self@.len(),
    {
        self.len
    }

    pub fn is_empty(&self) -> (r: bool)
        requires
            self.wf(),
        ensures
            r == (self@.len() == 0),
    {
        self.len == 0
    }

    /// Drops every element and every slot.
    pub fn clear(&mut self)
        ensures
            final(self).wf(),
            final(self)@ == Seq::<T>::empty(),
    {
        *self = Self::new();
    }

    pub fn front(&self) -> (r: Option<&T>)
        requires
            self.wf(),
        ensures
            self@.len() == 0 ==> r is None,
            self@.len() > 0 ==> r == Some(&self@[0]),
    {
        match self.head {
            Some(h) => Some(&self.node_ref(h).val),
            None => None,
        }
    }

    pub fn back(&self) -> (r: Option<&T>)
        requires
            self.wf(),
        ensures
            self@.len() == 0 ==> r is None,
            self@.len() > 0 ==> r == Some(&self@.last()),
    {
        match self.tail {
            Some(t) => Some(&self.node_ref(t).val),
            None => None,
        }
    }

    pub fn front_mut(&mut self) -> (r: Option<&mut T>)
        requires
            old(self).wf(),
        ensures
            final(self).wf(),
            old(self)@.len() == 0 ==> r is None && final(self)@ == old(self)@,
            old(self)@.len() > 0 ==> r is Some && *r->Some_0 == old(self)@[0] && final(self)@
                == old(self)@.update(0, *final(r->Some_0)),
    {
        match self.head {
            Some(h) => {
                let r = self.val_mut(h);
                proof {
                    old(self).lemma_value_replaced(0, *final(r));
                }
                Some(r)
            },
            None => None,
        }
    }

    pub fn back_mut(&mut self) -> (r: Option<&mut T>)
        requires
            old(self).wf(),
        ensures
            final(self).wf(),
            old(self)@.len() == 0 ==> r is None && final(self)@ == old(self)@,
            old(self)@.len() > 0 ==> r is Some && *r->Some_0 == old(self)@.last() && final(self)@
                == old(self)@.update(old(self)@.len() - 1, *final(r->Some_0)),
    {
        match self.tail {
            Some(t) => {
                let r = self.val_mut(t);
                proof {
                    old(self).lemma_value_replaced(old(self).len - 1, *final(r));
                }
                Some(r)
            },
            None => None,
        }
    }

    /// The element at `at`, reached from the nearer end; `at` must be in
    /// bounds.
    pub fn index(&self, at: usize) -> (r: &T)
        requires
            self.wf(),
            at < self@.len(),
        ensures
            *r == self@[at as int],
    {
        let s = self.slot_at(at).unwrap();
        &self.node_ref(s).val
    }

    /// The element at `at`, for writing; `at` must be in bounds.
    pub fn index_mut(&mut self, at: usize) -> (r: &mut T)
        requires
            old(self).wf(),
            at < old(self)@.len(),
        ensures
            *r == old(self)@[at as int],
            final(self).wf(),
            final(self)@ == old(self)@.update(at as int, *final(r)),
    {
        let s = self.slot_at(at).unwrap();
        let r = self.val_mut(s);
        proof {
            old(self).lemma_value_replaced(at as int, *final(r));
        }
        r
    }

    pub fn push_front(&mut self, val: T)
        requires
            old(self).wf(),
            old(self)@.len() < usize::MAX,
        ensures
            final(self).wf(),
            final(self)@ == seq![val] + old(self)@,
    {
        let h = self.head;
        self.link_in(0, h, val);
        proof {
            assert(final(self)@ =~= seq![val] + old(self)@);
        }
    }

    pub fn push_back(&mut self, val: T)
        requires
            old(self).wf(),
            old(self)@.len() < usize::MAX,
        ensures
            final(self).wf(),
            final(self)@ == old(self)@.push(val),
    {
        let n = self.len;
        self.link_in(n, None, val);
        proof {
            assert(final(self)@ =~= old(self)@.push(val));
        }
    }

    /// Removes and returns the front element; `None` on an empty list.
    pub fn pop_front(&mut self) -> (r: Option<T>)
        requires
            old(self).wf(),
        ensures
            final(self).wf(),
            old(self)@.len() == 0 ==> r is None && final(self)@ == old(self)@,
            old(self)@.len() > 0 ==> r == Some(old(self)@[0]) && final(self)@ == old(self)@.drop_first(),
    {
        match self.head {
            Some(h) => {
                let v = self.unlink(0, h);
                proof {
                    assert(final(self)@ =~= old(self)@.drop_first());
                }
                Some(v)
            },
            None => None,
        }
    }

    /// Removes and returns the back element; `None` on an empty list.
    pub fn pop_back(&mut self) -> (r: Option<T>)
        requires
            old(self).wf(),
        ensures
            final(self).wf(),
            old(self)@.len() == 0 ==> r is None && final(self)@ == old(self)@,
            old(self)@.len() > 0 ==> r == Some(old(self)@.last()) && final(self)@ == old(self)@.drop_last(),
    {
        match self.tail {
            Some(t) => {
                let n = self.len - 1;
                let v = self.unlink(n, t);
                proof {
                    assert(final(self)@ =~= old(self)@.drop_last());
                }
                Some(v)
            },
            None => None,
        }
    }

    /// Inserts `val` so that it lands at position `at`, walking from the
    /// nearer end; `false`, and no change, when `at` is past the end.
    pub fn insert(&mut self, at: usize, val: T) -> (r: bool)
        requires
            old(self).wf(),
            old(self)@.len() < usize::MAX,
        ensures
            final(self).wf(),
            r == (at <= old(self)@.len()),
            r ==> final(self)@ == old(self)@.insert(at as int, val),
            !r ==> final(self)@ == old(self)@,
    {
        if at > self.len {
            return false;
        }
        let next_slot = self.slot_at(at);
        self.link_in(at, next_slot, val);
        true
    }

    /// Removes and returns the element at `at`, walking from the nearer end;
    /// `None`, and no change, when `at` is out of bounds.
    pub fn remove(&mut self, at: usize) -> (r: Option<T>)
        requires
            old(self).wf(),
        ensures
            final(self).wf(),
            at < old(self)@.len() ==> r == Some(old(self)@[at as int]) && final(self)@ == old(
                self,
            )@.remove(at as int),
            at >= old(self)@.len() ==> r is None && final(self)@ == old(self)@,
    {
        if at >= self.len {
            return None;
        }
        let s = self.slot_at(at).unwrap();
        Some(self.unlink(at, s))
    }

    /// The position of the first element equal to `elem`.
    pub fn find(&self, elem: &T) -> (r: Option<usize>)
        where
            T: PartialEq,
        requires
            self.wf(),
        ensures
            T::obeys_eq_spec() ==> match r {
                Some(i) => first_match(self@, elem, i as int),
                None => !seq_has(self@, elem),
            },
    {
        let mut idx = self.head;
        let mut k: usize = 0;
        while k < self.len
            invariant
                self.wf(),
                k <= self.len,
                idx == link_at(self.order@, k as int),
                T::obeys_eq_spec() ==> forall|j: int| 0 <= j < k ==> !(#[trigger] self@[j].eq_spec(elem)),
            decreases self.len - k,
        {
            let s = idx.unwrap();
            let node = self.node_ref(s);
            if node.val == *elem {
                return Some(k);
            }
            idx = node.next;
            k = k + 1;
        }
        None
    }

    /// Whether some element equals `elem`.
    pub fn contains(&self, elem: &T) -> (r: bool)
        where
            T: PartialEq,
        requires
            self.wf(),
        ensures
            T::obeys_eq_spec() ==> r == seq_has(self@, elem),
    {
        self.find(elem).is_some()
    }

    /// The positions of all elements equal to `elem`, in increasing order.
    pub fn find_all(&self, elem: &T) -> (r: Vec<usize>)
        where
            T: PartialEq,
        requires
            self.wf(),
        ensures
            T::obeys_eq_spec() ==> r@ == match_positions(self@, elem),
    {
        let mut out: Vec<usize> = Vec::new();
        let mut idx = self.head;
        let mut k: usize = 0;
        while k < self.len
            invariant
                self.wf(),
                k <= self.len,
                idx == link_at(self.order@, k as int),
                T::obeys_eq_spec() ==> out@ == match_positions(self@.subrange(0, k as int), elem),
            decreases self.len - k,
        {
            let s = idx.unwrap();
            let node = self.node_ref(s);
            let hit = node.val == *elem;
            proof {
                let pre = self@.subrange(0, k as int + 1);
                assert(pre.drop_last() =~= self@.subrange(0, k as int));
            }
            if hit {
                out.push(k);
            }
            idx = node.next;
            k = k + 1;
        }
        proof {
            assert(self@.subrange(0, self.len as int) =~= self@);
        }
        out
    }

    /// The elements, front to back, following the links from the head.
    pub fn to_vec(&self) -> (r: Vec<T>)
        where
            T: Copy,
        requires
            self.wf(),
        ensures
            r@ == self@,
    {
        let mut out: Vec<T> = Vec::with_capacity(self.len);
        let mut idx = self.head;
        let mut k: usize = 0;
        while k < self.len
            invariant
                self.wf(),
                k <= self.len,
                idx == link_at(self.order@, k as int),
                out@ == self@.subrange(0, k as int),
            decreases self.len - k,
        {
            let s = idx.unwrap();
            let node = self.node_ref(s);
            out.push(node.val);
            idx = node.next;
            proof {
                assert(out@ =~= self@.subrange(0, k as int + 1));
            }
            k = k + 1;
        }
        proof {
            assert(out@ =~= self@);
        }
        out
    }

    /// A list holding a copy of `s`, in order.
    pub fn from_slice(s: &[T]) -> (r: Self)
        where
            T: Copy,
        ensures
            r.wf(),
            r@ == s@,
    {
        let mut list = Self::new();
        let mut i: usize = 0;
        while i < s.len()
            invariant
                list.wf(),
                i <= s@.len(),
                list@ == s@.subrange(0, i as int),
            decreases s@.len() - i,
        {
            list.push_back(s[i]);
            proof {
                assert(list@ =~= s@.subrange(0, i as int + 1));
            }
            i = i + 1;
        }
        proof {
            assert(list@ =~= s@);
        }
        list
    }

    /// The elements as `Display` writes them: `[a <-> b <-> c]`.
    pub fn to_string(&self) -> (r: String)
        where
            T: Copy + std::fmt::Display,
        requires
            self.wf(),
        ensures
            exists|texts: Seq<String>| displayed(self@, texts) && r@ == bracketed(texts, link_sep()),
    {
        let v = self.to_vec();
        render_links(v.as_slice())
    }

    /// A borrowing iterator that follows the links from either end.
    pub fn iter(&self) -> (r: Iter<'_, T>)
        requires
            self.wf(),
        ensures
            r.wf(),
            r@ == self@,
    {
        let r = Iter { list: self, front: 0, back: self.len, front_slot: self.head, back_slot: self.tail };
        proof {
            assert(r@ =~= self@);
        }
        r
    }

    /// An iterator that lends each element in turn for writing, front to
    /// back.
    pub fn iter_mut(&mut self) -> (r: IterMut<'_, T>)
        requires
            old(self).wf(),
        ensures
            r.wf(),
            r.list() == old(self)@,
            r.pos() == 0,
            r.end() == old(self)@.len(),
    {
        let front_slot = self.head;
        let back_slot = self.tail;
        let back = self.len;
        IterMut { list: self, front: 0, back, front_slot, back_slot }
    }

    /// A consuming iterator over the elements, from either end.
    pub fn into_iter(self) -> (r: IntoIter<T>)
        requires
            self.wf(),
        ensures
            r.wf(),
            r@ == self@,
    {
        IntoIter { list: self }
    }

    /// A cursor resting on the front element (on the ghost position when empty).
    pub fn cursor_front(&self) -> (r: Cursor<'_, T>)
        requires
            self.wf(),
        ensures
            r.wf(),
            r.list() == self@,
            r.pos() == if self@.len() == 0 { None::<usize> } else { Some(0usize) },
    {
        let index = if self.len == 0 { None } else { Some(0) };
        Cursor { index, current: self.head, list: self }
    }

    /// A cursor resting on the back element (on the ghost position when empty).
    pub fn cursor_back(&self) -> (r: Cursor<'_, T>)
        requires
            self.wf(),
        ensures
            r.wf(),
            r.list() == self@,
            r.pos() == if self@.len() == 0 { None::<usize> } else { Some((self@.len() - 1) as usize) },
    {
        let index = if self.len == 0 { None } else { Some(self.len - 1) };
        Cursor { index, current: self.tail, list: self }
    }

    /// An editing cursor resting on the front element (ghost when empty).
    pub fn cursor_front_mut(&mut self) -> (r: CursorMut<'_, T>)
        requires
            old(self).wf(),
        ensures
            r.wf(),
            r.list() == old(self)@,
            r.pos() == if old(self)@.len() == 0 { None::<usize> } else { Some(0usize) },
    {
        let index = if self.len == 0 { None } else { Some(0) };
        let current = self.head;
        CursorMut { index, current, list: self }
    }

    /// An editing cursor resting on the back element (ghost when empty).
    pub fn cursor_back_mut(&mut self) -> (r: CursorMut<'_, T>)
        requires
            old(self).wf(),
        ensures
            r.wf(),
            r.list() == old(self)@,
            r.pos() == if old(self)@.len() == 0 { None::<usize> } else { Some((old(self)@.len() - 1) as usize) },
    {
        let index = if self.len == 0 { None } else { Some(self.len - 1) };
        let current = self.tail;
        CursorMut { index, current, list: self }
    }
}

impl<T> Default for LinkedList<T> {
    fn default() -> (r: Self)
        ensures
            r.wf(),
            r@ == Seq::<T>::empty(),
    {
        Self::new()
    }
}

impl<T: Copy, const N: usize> From<[T; N]> for LinkedList<T> {
    /// Holds the elements of `arr`, in order.
    fn from(arr: [T; N]) -> (r: Self)
        ensures
            r.wf(),
            r@ == arr@,
    {
        Self::from_slice(arr.as_slice())
    }
}

impl<T: Copy, const N: usize> vstd::std_specs::convert::FromSpecImpl<[T; N]> for LinkedList<T> {
    open spec fn obeys_from_spec() -> bool {
        false
    }

    open spec fn from_spec(arr: [T; N]) -> Self {
        arbitrary()
    }
}

/// The consuming iterator of a [`LinkedList`]: it pops from either end.
pub struct IntoIter<T> {
    list: LinkedList<T>,
}

impl<T> View for IntoIter<T> {
    type V = Seq<T>;

    closed spec fn view(&self) -> Seq<T> {
        self.list@
    }
}

impl<T> IntoIter<T> {
    /// Well-formed: the list it holds is.
    pub closed spec fn wf(&self) -> bool {
        self.list.wf()
    }

    /// Takes the next element from the front.
    pub fn next(&mut self) -> (r: Option<T>)
        requires
            old(self).wf(),
        ensures
            final(self).wf(),
            old(self)@.len() == 0 ==> r is None && final(self)@ == old(self)@,
            old(self)@.len() > 0 ==> r == Some(old(self)@[0]) && final(self)@ == old(self)@.drop_first(),
    {
        self.list.pop_front()
    }

    /// Takes the next element from the back.
    pub fn next_back(&mut self) -> (r: Option<T>)
        requires
            old(self).wf(),
        ensures
            final(self).wf(),
            old(self)@.len() == 0 ==> r is None && final(self)@ == old(self)@,
            old(self)@.len() > 0 ==> r == Some(old(self)@.last()) && final(self)@ == old(self)@.drop_last(),
    {
        self.list.pop_back()
    }
}

/// A borrowing iterator over a [`LinkedList`]: it follows the links from
/// both ends and shares one remaining count, so the ends stop where they
/// meet.
pub struct Iter<'a, T> {
    list: &'a LinkedList<T>,
    front: usize,
    back: usize,
    front_slot: Option<usize>,
    back_slot: Option<usize>,
}

impl<'a, T> View for Iter<'a, T> {
    type V = Seq<T>;

    closed spec fn view(&self) -> Seq<T> {
        self.list@.subrange(self.front as int, self.back as int)
    }
}

impl<'a, T> Iter<'a, T> {
    /// Well-formed: the remaining range lies inside the list and the two
    /// slots are those of its ends.
    pub closed spec fn wf(&self) -> bool {
        &&& self.list.wf()
        &&& self.front <= self.back <= self.list.len
        &&& self.front_slot == link_at(self.list.order@, self.front as int)
        &&& self.back_slot == link_at(self.list.order@, self.back - 1)
    }

    /// Yields the next element from the front.
    pub fn next(&mut self) -> (r: Option<&'a T>)
        requires
            old(self).wf(),
        ensures
            final(self).wf(),
            old(self)@.len() == 0 ==> r is None && final(self)@ == old(self)@,
            old(self)@.len() > 0 ==> r == Some(&old(self)@[0]) && final(self)@ == old(self)@.drop_first(),
    {
        if self.front == self.back {
            return None;
        }
        let s = self.front_slot.unwrap();
        let node = self.list.node_ref(s);
        self.front_slot = node.next;
        self.front = self.front + 1;
        proof {
            assert(self@ =~= old(self)@.drop_first());
        }
        Some(&node.val)
    }

    /// Yields the next element from the back.
    pub fn next_back(&mut self) -> (r: Option<&'a T>)
        requires
            old(self).wf(),
        ensures
            final(self).wf(),
            old(self)@.len() == 0 ==> r is None && final(self)@ == old(self)@,
            old(self)@.len() > 0 ==> r == Some(&old(self)@.last()) && final(self)@ == old(self)@.drop_last(),
    {
        if self.front == self.back {
            return None;
        }
        let s = self.back_slot.unwrap();
        let node = self.list.node_ref(s);
        self.back_slot = node.prev;
        self.back = self.back - 1;
        proof {
            assert(self@ =~= old(self)@.drop_last());
        }
        Some(&node.val)
    }
}

/// A writing iterator over a [`LinkedList`]: each call of `next` lends the
/// next element, front to back.
pub struct IterMut<'a, T> {
    list: &'a mut LinkedList<T>,
    front: usize,
    back: usize,
    front_slot: Option<usize>,
    back_slot: Option<usize>,
}

impl<'a, T> IterMut<'a, T> {
    /// The list as the iterator sees it now.
    pub closed spec fn list(&self) -> Seq<T> {
        self.list@
    }

    /// How many elements have been handed out.
    pub closed spec fn pos(&self) -> nat {
        self.front as nat
    }

    /// Where the elements still to hand out end: those from `pos()` up to
    /// here.
    pub closed spec fn end(&self) -> nat {
        self.back as nat
    }

    /// Well-formed: the remaining range lies inside the list and the two
    /// slots are those of its ends.
    pub closed spec fn wf(&self) -> bool {
        &&& self.list.wf()
        &&& self.front <= self.back <= self.list.len
        &&& self.front_slot == link_at(self.list.order@, self.front as int)
        &&& self.back_slot == link_at(self.list.order@, self.back - 1)
    }

    /// Lends the next element for writing; `None` once all were handed out.
    pub fn next(&mut self) -> (r: Option<&mut T>)
        requires
            old(self).wf(),
        ensures
            final(self).wf(),
            final(self).end() == old(self).end(),
            old(self).pos() == old(self).end() ==> r is None && final(self).list() == old(self).list()
                && final(self).pos() == old(self).pos(),
            old(self).pos() < old(self).end() ==> r is Some && *r->Some_0 == old(self).list()[old(self).pos() as int]
                && final(self).list() == old(self).list().update(old(self).pos() as int, *final(r->Some_0))
                && final(self).pos() == old(self).pos() + 1,
    {
        if self.front == self.back {
            return None;
        }
        let s = self.front_slot.unwrap();
        self.front_slot = self.list.node_ref(s).next;
        let at = self.front;
        self.front = self.front + 1;
        let ghost before = *self.list;
        let r = self.list.val_mut(s);
        proof {
            before.lemma_value_replaced(at as int, *final(r));
        }
        Some(r)
    }

    /// Lends the last element still to hand out, for writing; `None` once
    /// the two ends meet.
    pub fn next_back(&mut self) -> (r: Option<&mut T>)
        requires
            old(self).wf(),
        ensures
            final(self).wf(),
            final(self).pos() == old(self).pos(),
            old(self).pos() == old(self).end() ==> r is None && final(self).list() == old(self).list()
                && final(self).end() == old(self).end(),
            old(self).pos() < old(self).end() ==> r is Some && *r->Some_0 == old(self).list()[old(self).end() - 1]
                && final(self).list() == old(self).list().update(old(self).end() - 1, *final(r->Some_0))
                && final(self).end() == old(self).end() - 1,
    {
        if self.front == self.back {
            return None;
        }
        let s = self.back_slot.unwrap();
        self.back_slot = self.list.node_ref(s).prev;
        self.back = self.back - 1;
        let at = self.back;
        let ghost before = *self.list;
        let r = self.list.val_mut(s);
        proof {
            before.lemma_value_replaced(at as int, *final(r));
        }
        Some(r)
    }
}

/// The position after one `move_next` from `pos` in a list of `len` elements:
/// from the ghost to the front, from the back to the ghost.
pub open spec fn next_pos(pos: Option<usize>, len: nat) -> Option<usize> {
    match pos {
        None => if len == 0 { None } else { Some(0usize) },
        Some(i) => if i + 1 < len { Some((i + 1) as usize) } else { None },
    }
}

/// The position after one `move_prev` from `pos` in a list of `len` elements:
/// from the ghost to the back, from the front to the ghost.
pub open spec fn prev_pos(pos: Option<usize>, len: nat) -> Option<usize> {
    match pos {
        None => if len == 0 { None } else { Some((len - 1) as usize) },
        Some(i) => if i > 0 { Some((i - 1) as usize) } else { None },
    }
}

/// `r` refers to the value that `v` holds, or both are empty.
pub open spec fn same_opt<T>(r: Option<&T>, v: Option<T>) -> bool {
    match r {
        Some(x) => v == Some(*x),
        None => v is None,
    }
}

/// The element at position `p`; nothing on the ghost position.
pub open spec fn peek_at<T>(s: Seq<T>, p: Option<usize>) -> Option<T> {
    match p {
        Some(i) => Some(s[i as int]),
        None => None,
    }
}

/// The position after the front element leaves a list of `len` elements.
pub open spec fn pos_after_pop_front(pos: Option<usize>, len: nat) -> Option<usize> {
    match pos {
        None => None,
        Some(i) => if i == 0 {
            if len > 1 { Some(0usize) } else { None }
        } else {
            Some((i - 1) as usize)
        },
    }
}

/// The slot that position `pos` names: nothing on the ghost position.
spec fn slot_of(order: Seq<usize>, pos: Option<usize>) -> Option<usize> {
    match pos {
        Some(i) => link_at(order, i as int),
        None => None,
    }
}

impl<T> LinkedList<T> {
    /// The slot one step after `current` (the head from the ghost position).
    fn step_next(&self, current: Option<usize>, Ghost(pos): Ghost<Option<usize>>) -> (r: Option<usize>)
        requires
            self.wf(),
            pos matches Some(i) ==> i < self.len,
            current == slot_of(self.order@, pos),
        ensures
            r == slot_of(self.order@, next_pos(pos, self.len as nat)),
    {
        match current {
            Some(c) => self.node_ref(c).next,
            None => self.head,
        }
    }

    /// The slot one step before `current` (the tail from the ghost position).
    fn step_prev(&self, current: Option<usize>, Ghost(pos): Ghost<Option<usize>>) -> (r: Option<usize>)
        requires
            self.wf(),
            pos matches Some(i) ==> i < self.len,
            current == slot_of(self.order@, pos),
        ensures
            r == slot_of(self.order@, prev_pos(pos, self.len as nat)),
    {
        match current {
            Some(c) => self.node_ref(c).prev,
            None => self.tail,
        }
    }
}

/// A read-only cursor into a [`LinkedList`]; it moves by following links.
pub struct Cursor<'a, T> {
    index: Option<usize>,
    current: Option<usize>,
    list: &'a LinkedList<T>,
}

impl<'a, T> Cursor<'a, T> {
    /// The list the cursor walks.
    pub closed spec fn list(&self) -> Seq<T> {
        self.list@
    }

    /// The position: `None` is the ghost position.
    pub closed spec fn pos(&self) -> Option<usize> {
        self.index
    }

    /// Well-formed: the list is, a position names an element, and the
    /// cursor's slot is that element's.
    pub closed spec fn wf(&self) -> bool {
        &&& self.list.wf()
        &&& self.index matches Some(i) ==> i < self.list.len
        &&& self.current == slot_of(self.list.order@, self.index)
    }

    /// The position, `None` on the ghost position.
    pub fn index(&self) -> (r: Option<usize>)
        ensures
            r == self.pos(),
            self.wf() ==> (r matches Some(i) ==> i < self.list().len()),
    {
        self.index
    }

    /// Steps towards the back, through the ghost position after the back.
    pub fn move_next(&mut self)
        requires
            old(self).wf(),
        ensures
            final(self).wf(),
            final(self).list() == old(self).list(),
            final(self).pos() == next_pos(old(self).pos(), old(self).list().len()),
    {
        let n = self.list.len;
        self.current = self.list.step_next(self.current, Ghost(self.index));
        self.index = match self.index {
            None => if n == 0 { None } else { Some(0) },
            Some(i) => if i + 1 < n { Some(i + 1) } else { None },
        };
    }

    /// Steps towards the front, through the ghost position before the front.
    pub fn move_prev(&mut self)
        requires
            old(self).wf(),
        ensures
            final(self).wf(),
            final(self).list() == old(self).list(),
            final(self).pos() == prev_pos(old(self).pos(), old(self).list().len()),
    {
        let n = self.list.len;
        self.current = self.list.step_prev(self.current, Ghost(self.index));
        self.index = match self.index {
            None => if n == 0 { None } else { Some(n - 1) },
            Some(i) => if i > 0 { Some(i - 1) } else { None },
        };
    }

    /// The element under the cursor; `None` on the ghost position.
    pub fn current(&self) -> (r: Option<&'a T>)
        requires
            self.wf(),
        ensures
            same_opt(r, peek_at(self.list(), self.pos())),
    {
        match self.current {
            Some(c) => Some(&self.list.node_ref(c).val),
            None => None,
        }
    }

    /// The element one `move_next` away, without moving.
    pub fn peek_next(&self) -> (r: Option<&'a T>)
        requires
            self.wf(),
        ensures
            same_opt(r, peek_at(self.list(), next_pos(self.pos(), self.list().len()))),
    {
        match self.list.step_next(self.current, Ghost(self.index)) {
            Some(c) => Some(&self.list.node_ref(c).val),
            None => None,
        }
    }

    /// The element one `move_prev` away, without moving.
    pub fn peek_prev(&self) -> (r: Option<&'a T>)
        requires
            self.wf(),
        ensures
            same_opt(r, peek_at(self.list(), prev_pos(self.pos(), self.list().len()))),
    {
        match self.list.step_prev(self.current, Ghost(self.index)) {
            Some(c) => Some(&self.list.node_ref(c).val),
            None => None,
        }
    }

    pub fn front(&self) -> (r: Option<&'a T>)
        requires
            self.wf(),
        ensures
            self.list().len() == 0 ==> r is None,
            self.list().len() > 0 ==> r == Some(&self.list()[0]),
    {
        self.list.front()
    }

    pub fn back(&self) -> (r: Option<&'a T>)
        requires
            self.wf(),
        ensures
            self.list().len() == 0 ==> r is None,
            self.list().len() > 0 ==> r == Some(&self.list().last()),
    {
        self.list.back()
    }
}

/// An editing cursor into a [`LinkedList`]. Its operations splice next to
/// the current cell in constant time, or at an end of the list on the ghost
/// position.
pub struct CursorMut<'a, T> {
    index: Option<usize>,
    current: Option<usize>,
    list: &'a mut LinkedList<T>,
}

impl<'a, T> CursorMut<'a, T> {
    /// The list as the cursor sees it now.
    pub closed spec fn list(&self) -> Seq<T> {
        self.list@
    }

    /// The position: `None` is the ghost position.
    pub closed spec fn pos(&self) -> Option<usize> {
        self.index
    }

    /// Well-formed: the list is, a position names an element, and the
    /// cursor's slot is that element's.
    pub closed spec fn wf(&self) -> bool {
        &&& self.list.wf()
        &&& self.index matches Some(i) ==> i < self.list.len
        &&& self.current == slot_of(self.list.order@, self.index)
    }

    /// The position, `None` on the ghost position.
    pub fn index(&self) -> (r: Option<usize>)
        ensures
            r == self.pos(),
            self.wf() ==> (r matches Some(i) ==> i < self.list().len()),
    {
        self.index
    }

    /// Steps towards the back, through the ghost position after the back.
    pub fn move_next(&mut self)
        requires
            old(self).wf(),
        ensures
            final(self).wf(),
            final(self).list() == old(self).list(),
            final(self).pos() == next_pos(old(self).pos(), old(self).list().len()),
    {
        let n = self.list.len;
        self.current = self.list.step_next(self.current, Ghost(self.index));
        self.index = match self.index {
            None => if n == 0 { None } else { Some(0) },
            Some(i) => if i + 1 < n { Some(i + 1) } else { None },
        };
    }

    /// Steps towards the front, through the ghost position before the front.
    pub fn move_prev(&mut self)
        requires
            old(self).wf(),
        ensures
            final(self).wf(),
            final(self).list() == old(self).list(),
            final(self).pos() == prev_pos(old(self).pos(), old(self).list().len()),
    {
        let n = self.list.len;
        self.current = self.list.step_prev(self.current, Ghost(self.index));
        self.index = match self.index {
            None => if n == 0 { None } else { Some(n - 1) },
            Some(i) => if i > 0 { Some(i - 1) } else { None },
        };
    }

    /// The element under the cursor, for writing; `None` on the ghost position.
    pub fn current(&mut self) -> (r: Option<&mut T>)
        requires
            old(self).wf(),
        ensures
            final(self).wf(),
            final(self).pos() == old(self).pos(),
            old(self).pos() is None ==> r is None && final(self).list() == old(self).list(),
            old(self).pos() matches Some(i) ==> r is Some && *r->Some_0 == old(self).list()[i as int]
                && final(self).list() == old(self).list().update(i as int, *final(r->Some_0)),
    {
        match self.current {
            Some(c) => {
                let ghost before = *self.list;
                let ghost at = self.index->Some_0;
                let r = self.list.val_mut(c);
                proof {
                    before.lemma_value_replaced(at as int, *final(r));
                }
                Some(r)
            },
            None => None,
        }
    }

    /// The element one `move_next` away, without moving.
    pub fn peek_next(&self) -> (r: Option<&T>)
        requires
            self.wf(),
        ensures
            same_opt(r, peek_at(self.list(), next_pos(self.pos(), self.list().len()))),
    {
        match self.list.step_next(self.current, Ghost(self.index)) {
            Some(c) => Some(&self.list.node_ref(c).val),
            None => None,
        }
    }

    /// The element one `move_prev` away, without moving.
    pub fn peek_prev(&self) -> (r: Option<&T>)
        requires
            self.wf(),
        ensures
            same_opt(r, peek_at(self.list(), prev_pos(self.pos(), self.list().len()))),
    {
        match self.list.step_prev(self.current, Ghost(self.index)) {
            Some(c) => Some(&self.list.node_ref(c).val),
            None => None,
        }
    }

    pub fn front(&self) -> (r: Option<&T>)
        requires
            self.wf(),
        ensures
            self.list().len() == 0 ==> r is None,
            self.list().len() > 0 ==> r == Some(&self.list()[0]),
    {
        self.list.front()
    }

    pub fn front_mut(&mut self) -> (r: Option<&mut T>)
        requires
            old(self).wf(),
        ensures
            final(self).wf(),
            final(self).pos() == old(self).pos(),
            old(self).list().len() == 0 ==> r is None && final(self).list() == old(self).list(),
            old(self).list().len() > 0 ==> r is Some && *r->Some_0 == old(self).list()[0]
                && final(self).list() == old(self).list().update(0, *final(r->Some_0)),
    {
        match self.list.head {
            Some(h) => {
                let ghost before = *self.list;
                let r = self.list.val_mut(h);
                proof {
                    before.lemma_value_replaced(0, *final(r));
                }
                Some(r)
            },
            None => None,
        }
    }

    pub fn back(&self) -> (r: Option<&T>)
        requires
            self.wf(),
        ensures
            self.list().len() == 0 ==> r is None,
            self.list().len() > 0 ==> r == Some(&self.list().last()),
    {
        self.list.back()
    }

    pub fn back_mut(&mut self) -> (r: Option<&mut T>)
        requires
            old(self).wf(),
        ensures
            final(self).wf(),
            final(self).pos() == old(self).pos(),
            old(self).list().len() == 0 ==> r is None && final(self).list() == old(self).list(),
            old(self).list().len() > 0 ==> r is Some && *r->Some_0 == old(self).list().last()
                && final(self).list() == old(self).list().update(
                old(self).list().len() - 1,
                *final(r->Some_0),
            ),
    {
        match self.list.tail {
            Some(t) => {
                let ghost before = *self.list;
                let r = self.list.val_mut(t);
                proof {
                    before.lemma_value_replaced(before.len - 1, *final(r));
                }
                Some(r)
            },
            None => None,
        }
    }

    /// Pushes `val` at the front; the cursor stays on the same element.
    pub fn push_front(&mut self, val: T)
        requires
            old(self).wf(),
            old(self).list().len() < usize::MAX,
        ensures
            final(self).wf(),
            final(self).list() == seq![val] + old(self).list(),
            final(self).pos() == match old(self).pos() {
                Some(i) => Some((i + 1) as usize),
                None => None::<usize>,
            },
    {
        let h = self.list.head;
        let ghost order = self.list.order@;
        self.list.link_in(0, h, val);
        self.index = match self.index {
            Some(i) => Some(i + 1),
            None => None,
        };
        proof {
            assert(self.list@ =~= seq![val] + old(self).list());
            if let Some(i) = old(self).index {
                assert(self.list.order@[i + 1] == order[i as int]);
            }
        }
    }

    /// Pushes `val` at the back; the cursor stays where it is.
    pub fn push_back(&mut self, val: T)
        requires
            old(self).wf(),
            old(self).list().len() < usize::MAX,
        ensures
            final(self).wf(),
            final(self).list() == old(self).list().push(val),
            final(self).pos() == old(self).pos(),
    {
        let n = self.list.len;
        let ghost order = self.list.order@;
        self.list.link_in(n, None, val);
        proof {
            assert(self.list@ =~= old(self).list().push(val));
            if let Some(i) = old(self).index {
                assert(self.list.order@[i as int] == order[i as int]);
            }
        }
    }

    /// Removes the front element; a cursor on it moves to its successor.
    pub fn pop_front(&mut self) -> (r: Option<T>)
        requires
            old(self).wf(),
        ensures
            final(self).wf(),
            old(self).list().len() == 0 ==> r is None && final(self).list() == old(self).list()
                && final(self).pos() == old(self).pos(),
            old(self).list().len() > 0 ==> r == Some(old(self).list()[0]) && final(self).list()
                == old(self).list().drop_first() && final(self).pos() == pos_after_pop_front(
                old(self).pos(),
                old(self).list().len(),
            ),
    {
        let n = self.list.len;
        match self.list.head {
            None => None,
            Some(h) => {
                let ghost order = self.list.order@;
                if self.index == Some(0) {
                    self.current = self.list.node_ref(h).next;
                }
                self.index = match self.index {
                    None => None,
                    Some(i) => if i == 0 {
                        if n > 1 { Some(0) } else { None }
                    } else {
                        Some(i - 1)
                    },
                };
                let v = self.list.unlink(0, h);
                proof {
                    assert(self.list@ =~= old(self).list().drop_first());
                    if let Some(i) = self.index {
                        assert(self.list.order@[i as int] == order[i + 1]);
                    }
                }
                Some(v)
            },
        }
    }

    /// Removes the back element; a cursor on it moves to the ghost position.
    pub fn pop_back(&mut self) -> (r: Option<T>)
        requires
            old(self).wf(),
        ensures
            final(self).wf(),
            old(self).list().len() == 0 ==> r is None && final(self).list() == old(self).list()
                && final(self).pos() == old(self).pos(),
            old(self).list().len() > 0 ==> r == Some(old(self).list().last()) && final(self).list()
                == old(self).list().drop_last() && final(self).pos() == if old(self).pos() == Some(
                (old(self).list().len() - 1) as usize,
            ) {
                None::<usize>
            } else {
                old(self).pos()
            },
    {
        let n = self.list.len;
        match self.list.tail {
            None => None,
            Some(t) => {
                let ghost order = self.list.order@;
                if self.index == Some(n - 1) {
                    self.index = None;
                    self.current = None;
                }
                let v = self.list.unlink(n - 1, t);
                proof {
                    assert(self.list@ =~= old(self).list().drop_last());
                    if let Some(i) = self.index {
                        assert(self.list.order@[i as int] == order[i as int]);
                    }
                }
                Some(v)
            },
        }
    }

    /// Inserts `val` just before the current element, which keeps the cursor;
    /// on the ghost position `val` goes to the back.
    pub fn insert_before(&mut self, val: T)
        requires
            old(self).wf(),
            old(self).list().len() < usize::MAX,
        ensures
            final(self).wf(),
            old(self).pos() is None ==> final(self).list() == old(self).list().push(val)
                && final(self).pos() is None,
            old(self).pos() matches Some(i) ==> final(self).list() == old(self).list().insert(
                i as int,
                val,
            ) && final(self).pos() == Some((i + 1) as usize),
    {
        let ghost order = self.list.order@;
        match self.index {
            None => {
                let n = self.list.len;
                self.list.link_in(n, None, val);
                proof {
                    assert(self.list@ =~= old(self).list().push(val));
                }
            },
            Some(i) => {
                let c = self.current;
                self.list.link_in(i, c, val);
                self.index = Some(i + 1);
                proof {
                    assert(self.list.order@[i + 1] == order[i as int]);
                }
            },
        }
    }

    /// Inserts `val` just after the current element; on the ghost position
    /// `val` goes to the back.
    pub fn insert_after(&mut self, val: T)
        requires
            old(self).wf(),
            old(self).list().len() < usize::MAX,
        ensures
            final(self).wf(),
            old(self).pos() is None ==> final(self).list() == old(self).list().push(val)
                && final(self).pos() is None,
            old(self).pos() matches Some(i) ==> final(self).list() == old(self).list().insert(
                i + 1,
                val,
            ) && final(self).pos() == Some(i),
    {
        let ghost order = self.list.order@;
        match self.index {
            None => {
                let n = self.list.len;
                self.list.link_in(n, None, val);
                proof {
                    assert(self.list@ =~= old(self).list().push(val));
                }
            },
            Some(i) => {
                let next = self.list.node_ref(self.current.unwrap()).next;
                self.list.link_in(i + 1, next, val);
                proof {
                    assert(self.list.order@[i as int] == order[i as int]);
                }
            },
        }
    }

    /// Unlinks and returns the current element; the cursor moves to its
    /// successor (the ghost position after the back). Nothing happens on the
    /// ghost position.
    pub fn remove_current(&mut self) -> (r: Option<T>)
        requires
            old(self).wf(),
        ensures
            final(self).wf(),
            old(self).pos() is None ==> r is None && final(self).list() == old(self).list()
                && final(self).pos() is None,
            old(self).pos() matches Some(i) ==> r == Some(old(self).list()[i as int])
                && final(self).list() == old(self).list().remove(i as int) && final(self).pos() == if i
                + 1 < old(self).list().len() {
                Some(i)
            } else {
                None::<usize>
            },
    {
        match self.index {
            None => None,
            Some(i) => {
                let ghost order = self.list.order@;
                let c = self.current.unwrap();
                let next = self.list.node_ref(c).next;
                let v = self.list.unlink(i, c);
                self.current = next;
                if next.is_none() {
                    self.index = None;
                }
                proof {
                    if let Some(j) = self.index {
                        assert(self.list.order@[j as int] == order[j + 1]);
                    }
                }
                Some(v)
            },
        }
    }
}

} // verus!
