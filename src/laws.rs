//! Properties that relate several operations, stated over the same models
//! that the operations' own contracts use.
use vstd::prelude::*;
use crate::ds::{ArrayQueue, ArrayStack, LinkedList, LinkedQueue, LinkedStack, SLinkedList, SqList, Vector, MAXLEN};
use crate::ds::hashmap::{HashMap, MapKey, inserted, removed};
use crate::ds::linked_list::next_pos;

verus! {

/// Building a list from a slice and reading it back gives the slice.
pub proof fn law_round_trip_linked_list<T: Copy>(s: &[T], l: LinkedList<T>, out: Vec<T>)
    requires
        call_ensures(LinkedList::<T>::from_slice, (s,), l),
        call_ensures(LinkedList::<T>::to_vec, (&l,), out),
    ensures
        out@ == s@,
{
}

/// Building a vector from a slice and reading it back gives the slice.
pub proof fn law_round_trip_vector<T: Copy>(s: &[T], v: Vector<T>, out: &[T])
    requires
        call_ensures(Vector::<T>::from_slice, (s,), v),
        call_ensures(Vector::<T>::as_slice, (&v,), out),
    ensures
        out@ == s@,
{
}

/// Building a queue from a slice and reading it back gives the slice.
pub proof fn law_round_trip_linked_queue<T: Copy>(s: &[T], q: LinkedQueue<T>, out: Vec<T>)
    requires
        call_ensures(LinkedQueue::<T>::from_slice, (s,), q),
        call_ensures(LinkedQueue::<T>::to_vec, (&q,), out),
    ensures
        out@ == s@,
{
}

/// Building a stack from a slice and reading it back gives the slice.
pub proof fn law_round_trip_linked_stack<T: Copy>(s: &[T], st: LinkedStack<T>, out: Vec<T>)
    requires
        call_ensures(LinkedStack::<T>::from_slice, (s,), st),
        call_ensures(LinkedStack::<T>::to_vec, (&st,), out),
    ensures
        out@ == s@,
{
}

/// Building a bounded list from a slice that fits and reading it back gives
/// the slice.
pub proof fn law_round_trip_static_list<T: Copy + Default>(s: &[T], l: SLinkedList<T>, out: Vec<T>)
    requires
        s@.len() <= MAXLEN,
        call_ensures(SLinkedList::<T>::from_slice, (s,), l),
        call_ensures(SLinkedList::<T>::to_vec, (&l,), out),
    ensures
        out@ == s@,
{
    assert(s@.subrange(0, s@.len() as int) =~= s@);
}

/// Building a sequential list from a slice that fits and reading it back
/// gives the slice.
pub proof fn law_round_trip_sqlist<T: Copy + Default>(s: &[T], l: SqList<T>, out: &[T])
    requires
        s@.len() <= MAXLEN,
        call_ensures(SqList::<T>::from_slice, (s,), l),
        call_ensures(SqList::<T>::as_slice, (&l,), out),
    ensures
        out@ == s@,
{
    assert(s@.subrange(0, s@.len() as int) =~= s@);
}

/// Building a ring queue from a slice that fits and reading it back gives
/// the slice.
pub proof fn law_round_trip_array_queue<T: Copy + Default>(s: &[T], q: ArrayQueue<T>, out: Vec<T>)
    requires
        s@.len() <= MAXLEN,
        call_ensures(ArrayQueue::<T>::from_slice, (s,), q),
        call_ensures(ArrayQueue::<T>::to_vec, (&q,), out),
    ensures
        out@ == s@,
{
    assert(s@.subrange(0, s@.len() as int) =~= s@);
}

/// Building an array stack from a slice that fits and reading it back gives
/// the slice.
pub proof fn law_round_trip_array_stack<T: Copy + Default>(s: &[T], st: ArrayStack<T>, out: Vec<T>)
    requires
        s@.len() <= MAXLEN,
        call_ensures(ArrayStack::<T>::from_slice, (s,), st),
        call_ensures(ArrayStack::<T>::to_vec, (&st,), out),
    ensures
        out@ == s@,
{
    assert(s@.subrange(0, s@.len() as int) =~= s@);
}

/// The length a list reports is the number of elements a full traversal
/// yields.
pub proof fn law_len_counts_linked_list<T: Copy>(l: LinkedList<T>, n: usize, out: Vec<T>)
    requires
        call_ensures(LinkedList::<T>::len, (&l,), n),
        call_ensures(LinkedList::<T>::to_vec, (&l,), out),
    ensures
        n == out@.len(),
{
}

/// The length a vector reports is the number of its live elements.
pub proof fn law_len_counts_vector<T>(v: Vector<T>, n: usize, out: &[T])
    requires
        call_ensures(Vector::<T>::len, (&v,), n),
        call_ensures(Vector::<T>::as_slice, (&v,), out),
    ensures
        n == out@.len(),
{
}

/// The length a bounded list reports is the number of elements a full
/// traversal yields.
pub proof fn law_len_counts_static_list<T: Copy>(l: SLinkedList<T>, n: usize, out: Vec<T>)
    requires
        call_ensures(SLinkedList::<T>::len, (&l,), n),
        call_ensures(SLinkedList::<T>::to_vec, (&l,), out),
    ensures
        n == out@.len(),
{
}

/// The position after `k` calls of `move_next` from `pos`.
pub open spec fn moved_next(pos: Option<usize>, len: nat, k: nat) -> Option<usize>
    decreases k,
{
    if k == 0 {
        pos
    } else {
        next_pos(moved_next(pos, len, (k - 1) as nat), len)
    }
}

/// A cursor on the front of a list of `len` elements reaches the ghost
/// position after `len` steps forward, and the next step brings it back to
/// the front.
pub proof fn law_cursor_wraps_through_ghost(len: nat)
    requires
        0 < len <= usize::MAX,
    ensures
        moved_next(Some(0usize), len, len) is None,
        moved_next(Some(0usize), len, len + 1) == Some(0usize),
{
    lemma_moved_next_walks(len, len);
}

proof fn lemma_moved_next_walks(len: nat, k: nat)
    requires
        0 < len <= usize::MAX,
        k <= len,
    ensures
        k < len ==> moved_next(Some(0usize), len, k) == Some(k as usize),
        k == len ==> moved_next(Some(0usize), len, k) is None,
    decreases k,
{
    if k > 0 {
        lemma_moved_next_walks(len, (k - 1) as nat);
    }
}

/// Removing at the position just inserted at gives back the element
/// inserted and restores the sequence; this is what `insert` followed by
/// `remove` at the same valid position does to every list of this crate.
pub proof fn law_insert_remove_inverse<T>(l: Seq<T>, at: int, v: T)
    requires
        0 <= at <= l.len(),
    ensures
        l.insert(at, v)[at] == v,
        l.insert(at, v).remove(at) == l,
{
    assert(l.insert(at, v).remove(at) =~= l);
}

/// Inserting one key twice leaves one entry, holding the later value, and
/// the second insertion does not add a pair.
pub proof fn law_hashmap_insert_twice<K: MapKey, V>(
    m0: HashMap<K, V>,
    m1: HashMap<K, V>,
    m2: HashMap<K, V>,
    k: Seq<u8>,
    v1: V,
    v2: V,
)
    requires
        inserted(m0, m1, k, v1),
        inserted(m1, m2, k, v2),
    ensures
        m2@ == m0@.insert(k, v2),
        m2@[k] == v2,
        m2.spec_count() == m1.spec_count(),
{
    assert(m2@ =~= m0@.insert(k, v2));
}

/// One operation on a map, by key bytes.
pub enum MapOp<V> {
    Insert(Seq<u8>, V),
    Remove(Seq<u8>),
}

/// The contents after applying `ops` in order to `m`.
pub open spec fn replay<V>(m: Map<Seq<u8>, V>, ops: Seq<MapOp<V>>) -> Map<Seq<u8>, V>
    decreases ops.len(),
{
    if ops.len() == 0 {
        m
    } else {
        let before = replay(m, ops.drop_last());
        match ops.last() {
            MapOp::Insert(k, v) => before.insert(k, v),
            MapOp::Remove(k) => before.remove(k),
        }
    }
}

/// `after` is what the map operation `op` makes of `before`.
pub open spec fn map_step<K: MapKey, V>(before: HashMap<K, V>, after: HashMap<K, V>, op: MapOp<V>) -> bool {
    match op {
        MapOp::Insert(k, v) => inserted(before, after, k, v),
        MapOp::Remove(k) => removed(before, after, k),
    }
}

/// However the inserts and removes along the way grew or shrank the table,
/// the map holds exactly the pairs that the operations leave: every key
/// inserted and not removed since is found, with its latest value.
pub proof fn law_hashmap_resize_keeps_contents<K: MapKey, V>(
    maps: Seq<HashMap<K, V>>,
    ops: Seq<MapOp<V>>,
)
    requires
        maps.len() == ops.len() + 1,
        maps[0].wf(),
        forall|i: int| 0 <= i < ops.len() ==> map_step(maps[i], maps[i + 1], #[trigger] ops[i]),
    ensures
        maps.last().wf(),
        maps.last()@ == replay(maps[0]@, ops),
    decreases ops.len(),
{
    if ops.len() > 0 {
        let n = ops.len() - 1;
        law_hashmap_resize_keeps_contents(maps.drop_last(), ops.drop_last());
        assert(map_step(maps[n], maps[n + 1], ops[n]));
        assert(maps.drop_last().last() == maps[n]);
    }
}

} // verus!
