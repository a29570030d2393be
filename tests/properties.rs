use algorithms_rs::ds::hashmap::{HashMap, INIT_CAP, SHRINK_CAP};
use algorithms_rs::ds::{ArrayQueue, ArrayStack, LinkedList, LinkedQueue, LinkedStack, Node, SLinkedList, SqList, Vector, MAXLEN};

#[test]
fn round_trip_of_every_sequence_container() {
    let inputs: Vec<Vec<i32>> = vec![vec![], vec![7], vec![3, -1, 3, 0, 9]];
    for s in inputs {
        assert_eq!(Vector::from_slice(&s).as_slice(), &s[..]);
        assert_eq!(LinkedList::from_slice(&s).to_vec(), s);
        assert_eq!(LinkedQueue::from_slice(&s).to_vec(), s);
        assert_eq!(LinkedStack::from_slice(&s).to_vec(), s);
        assert_eq!(SLinkedList::from_slice(&s).to_vec(), s);
        assert_eq!(SqList::from_slice(&s).as_slice(), &s[..]);
        assert_eq!(ArrayQueue::from_slice(&s).to_vec(), s);
        assert_eq!(ArrayStack::from_slice(&s).to_vec(), s);
    }
}

#[test]
fn bounded_containers_keep_at_most_maxlen() {
    let long: Vec<i32> = (0..(MAXLEN as i32 + 5)).collect();
    assert_eq!(SqList::from_slice(&long).len(), MAXLEN);
    assert_eq!(ArrayQueue::from_slice(&long).to_vec(), long[..MAXLEN].to_vec());
    let mut stack = ArrayStack::from_slice(&long);
    assert!(!stack.push(1));
    let mut queue = ArrayQueue::from_slice(&long);
    assert!(!queue.push_front(1));
    assert!(!queue.push_back(1));
    let mut list = SqList::from_slice(&long);
    assert!(!list.insert(0, 1));
    let mut slist = SLinkedList::from_slice(&long);
    assert!(!slist.push_back(1));
    assert_eq!(slist.len(), MAXLEN);
}

#[test]
fn length_matches_traversal_after_mixed_operations() {
    let mut list = LinkedList::new();
    list.push_back(1);
    list.push_front(0);
    assert!(list.insert(1, 5));
    assert_eq!(list.pop_back(), Some(1));
    assert_eq!(list.remove(0), Some(0));
    list.push_back(8);
    let mut count = 0;
    let mut it = list.iter();
    while it.next().is_some() {
        count += 1;
    }
    assert_eq!(list.len(), count);
    assert_eq!(list.to_vec(), vec![5, 8]);

    let mut v = Vector::new();
    v.push(1);
    v.push(2);
    v.insert(0, 0);
    assert_eq!(v.remove(1), 1);
    assert_eq!(v.pop(), Some(2));
    assert_eq!(v.len(), v.as_slice().len());
    assert_eq!(v.as_slice(), &[0]);
}

#[test]
fn empty_containers_signal_absence() {
    let mut list = LinkedList::<i32>::new();
    assert_eq!(list.pop_front(), None);
    assert_eq!(list.pop_back(), None);
    assert_eq!(list.front(), None);
    assert_eq!(list.back(), None);
    assert_eq!(list.remove(0), None);
    let mut v = Vector::<i32>::new();
    assert_eq!(v.pop(), None);
    let mut q = ArrayQueue::<i32>::new();
    assert_eq!(q.pop_front(), None);
    assert_eq!(q.pop_back(), None);
    assert_eq!(q.front(), None);
    let mut s = SLinkedList::<i32>::new();
    assert_eq!(s.pop_front(), None);
    assert_eq!(s.remove(0), None);
    let mut map = HashMap::<&str, i32>::new();
    assert_eq!(map.get("a"), None);
    assert_eq!(map.remove("a"), None);
    assert!(map.is_empty());
}

#[test]
fn cursor_wraps_through_the_ghost_position() {
    let list = LinkedList::from([0, 1, 2, 3, 4, 5]);
    let mut cursor = list.cursor_front();
    assert_eq!(cursor.index(), Some(0));
    for _ in 0..6 {
        cursor.move_next();
    }
    assert_eq!(cursor.index(), None);
    assert_eq!(cursor.current(), None);
    cursor.move_next();
    assert_eq!(cursor.index(), Some(0));
    assert_eq!(cursor.current(), Some(&0));
    cursor.move_prev();
    assert_eq!(cursor.index(), None);
    cursor.move_prev();
    assert_eq!(cursor.index(), Some(5));
    assert_eq!(cursor.peek_next(), None);
    assert_eq!(cursor.peek_prev(), Some(&4));
}

#[test]
fn cursor_mut_splices_next_to_the_current_element() {
    let mut list = LinkedList::from([0, 1, 2]);
    {
        let mut cursor = list.cursor_front_mut();
        cursor.move_next();
        cursor.insert_before(10);
        assert_eq!(cursor.index(), Some(2));
        cursor.insert_after(20);
        assert_eq!(cursor.remove_current(), Some(1));
        assert_eq!(cursor.current().map(|x| *x), Some(20));
    }
    assert_eq!(list.to_vec(), vec![0, 10, 20, 2]);
    {
        let mut cursor = list.cursor_back_mut();
        cursor.move_next();
        assert_eq!(cursor.index(), None);
        assert_eq!(cursor.remove_current(), None);
        cursor.insert_before(7);
        assert_eq!(cursor.pop_front(), Some(0));
        assert_eq!(cursor.pop_back(), Some(7));
    }
    assert_eq!(list.to_vec(), vec![10, 20, 2]);
}

#[test]
fn insert_then_remove_restores_the_list() {
    let base = [4, 8, 15, 16, 23, 42];
    for at in 0..=base.len() {
        let mut list = LinkedList::from(base);
        assert!(list.insert(at, 99));
        assert_eq!(list.remove(at), Some(99));
        assert_eq!(list.to_vec(), base.to_vec());

        let mut v = Vector::from(base);
        v.insert(at, 99);
        assert_eq!(v.remove(at), 99);
        assert_eq!(v.as_slice(), &base);

        let mut sq = SqList::from(base);
        assert!(sq.insert(at, 99));
        assert_eq!(sq.remove(at), Some(99));
        assert_eq!(sq.as_slice(), &base);
    }
}

#[test]
fn scenario_linked_list_removals() {
    let mut list = LinkedList::from([0, 1, 2, 3, 4, 5]);
    assert_eq!(list.remove(0), Some(0));
    assert_eq!(list.to_vec(), vec![1, 2, 3, 4, 5]);
    assert_eq!(list.remove(4), Some(5));
    assert_eq!(list.to_vec(), vec![1, 2, 3, 4]);
    assert_eq!(list.remove(99), None);
    assert_eq!(list.to_vec(), vec![1, 2, 3, 4]);
}

#[test]
fn scenario_vector_push_and_insert() {
    let mut v = Vector::new();
    v.push(0);
    v.push(1);
    assert_eq!(v.as_slice(), &[0, 1]);
    v.insert(0, 10);
    assert_eq!(v.as_slice(), &[10, 0, 1]);
}

#[test]
fn vector_capacity_doubles_from_one() {
    let mut v = Vector::new();
    assert_eq!(v.cap(), 0);
    v.push(1);
    assert_eq!(v.cap(), 1);
    v.push(2);
    assert_eq!(v.cap(), 2);
    v.push(3);
    assert_eq!(v.cap(), 4);
    v.clear();
    assert_eq!(v.cap(), 4);
}

#[test]
fn scenario_hashmap_from_pairs() {
    let mut map = HashMap::from([("b", 1), ("d", 3), ("f", 5), ("a", 0), ("c", 2), ("e", 4)]);
    assert_eq!(map.len(), 6);
    assert_eq!(map.get("a"), Some(&0));
    assert_eq!(map.remove("a"), Some(0));
    assert_eq!(map.len(), 5);
    assert_eq!(map.remove("a"), None);
}

#[test]
fn hashmap_second_insert_overwrites() {
    let mut map = HashMap::<&str, i32>::new();
    map.insert("k", 1);
    assert_eq!(map.count(), 1);
    map.insert("k", 2);
    assert_eq!(map.count(), 1);
    assert_eq!(map.get("k"), Some(&2));
    assert_eq!(map.to_vec(), vec![("k", 2)]);
}

#[test]
fn hashmap_resizing_keeps_every_pair() {
    let keys: Vec<String> = (0..3000).map(|i| format!("key{i}")).collect();
    let mut map = HashMap::<&str, usize>::new();
    for (i, k) in keys.iter().enumerate() {
        map.insert(k.as_str(), i);
    }
    assert!(map.cap() > INIT_CAP);
    assert_eq!(map.count(), keys.len());
    for (i, k) in keys.iter().enumerate() {
        assert_eq!(map.get(k.as_str()), Some(&i));
    }
    let grown = map.cap();
    assert!(grown > SHRINK_CAP);
    for k in keys.iter().skip(50) {
        assert!(map.remove(k.as_str()).is_some());
    }
    assert!(map.cap() < grown);
    assert_eq!(map.count(), 50);
    for (i, k) in keys.iter().enumerate() {
        if i < 50 {
            assert_eq!(map.get(k.as_str()), Some(&i));
        } else {
            assert_eq!(map.get(k.as_str()), None);
        }
    }
}

#[test]
fn hashmap_with_zero_capacity_has_one_bucket() {
    let mut map = HashMap::<&str, i32>::with_cap(0);
    assert_eq!(map.cap(), 1);
    map.insert("x", 1);
    assert_eq!(map.get("x"), Some(&1));
}

#[test]
fn static_list_swap_and_reverse() {
    let mut list = SLinkedList::from([0, 1, 2, 3, 4]);
    list.swap(0, 4);
    assert_eq!(list.to_vec(), vec![4, 1, 2, 3, 0]);
    list.swap(1, 99);
    assert_eq!(list.to_vec(), vec![4, 1, 2, 3, 0]);
    list.reverse();
    assert_eq!(list.to_vec(), vec![0, 3, 2, 1, 4]);
}

#[test]
fn find_reports_first_and_all_positions() {
    let list = LinkedList::from([1, 2, 1, 3, 1]);
    assert_eq!(list.find(&1), Some(0));
    assert_eq!(list.find_all(&1), vec![0, 2, 4]);
    assert!(list.contains(&3));
    assert!(!list.contains(&4));
    let sq = SqList::from([1, 2, 1]);
    assert_eq!(sq.find_all(&1), vec![0, 2]);
    assert_eq!(sq.find(&2), Some(1));
}

#[test]
fn ring_queue_wraps_around_the_buffer() {
    let mut q = ArrayQueue::<i32>::new();
    assert!(q.push_front(1));
    assert!(q.push_front(0));
    assert!(q.push_back(2));
    assert_eq!(q.to_vec(), vec![0, 1, 2]);
    assert_eq!(q.pop_back(), Some(2));
    assert_eq!(q.pop_front(), Some(0));
    assert_eq!(q.to_vec(), vec![1]);
}

#[test]
fn node_holds_its_value_unlinked() {
    let node = Node::new(7);
    assert_eq!(node.prev, None);
    assert_eq!(node.next, None);
    assert_eq!(node.into_val(), 7);
}

#[test]
fn list_slots_are_reused_after_removal() {
    let mut list = LinkedList::new();
    for i in 0..10 {
        list.push_back(i);
    }
    for _ in 0..5 {
        list.pop_front();
    }
    for i in 10..15 {
        list.push_front(i);
    }
    assert_eq!(list.to_vec(), vec![14, 13, 12, 11, 10, 5, 6, 7, 8, 9]);
    assert_eq!(list.remove(7), Some(7));
    assert!(list.insert(3, 99));
    assert_eq!(list.to_vec(), vec![14, 13, 12, 99, 11, 10, 5, 6, 8, 9]);
    let mut back = list.iter();
    assert_eq!(back.next_back(), Some(&9));
    assert_eq!(back.next(), Some(&14));
}

#[test]
fn iterators_stop_where_the_ends_meet() {
    let list = LinkedList::from([1, 2, 3]);
    let mut it = list.iter();
    assert_eq!(it.next(), Some(&1));
    assert_eq!(it.next_back(), Some(&3));
    assert_eq!(it.next(), Some(&2));
    assert_eq!(it.next_back(), None);
    assert_eq!(it.next(), None);
    let mut owned = LinkedList::from([1, 2, 3]).into_iter();
    assert_eq!(owned.next_back(), Some(3));
    assert_eq!(owned.next(), Some(1));
    assert_eq!(owned.next(), Some(2));
    assert_eq!(owned.next_back(), None);
}

#[test]
fn iter_mut_writes_from_both_ends() {
    let mut list = LinkedList::from([1, 2, 3, 4]);
    {
        let mut it = list.iter_mut();
        *it.next_back().unwrap() = 40;
        *it.next().unwrap() = 10;
        *it.next_back().unwrap() = 30;
        *it.next().unwrap() = 20;
        assert!(it.next().is_none());
        assert!(it.next_back().is_none());
    }
    assert_eq!(list.to_vec(), vec![10, 20, 30, 40]);

    let mut slist = SLinkedList::from([1, 2, 3]);
    {
        let mut it = slist.iter_mut();
        *it.next_back().unwrap() = 9;
        *it.next().unwrap() = 7;
        *it.next().unwrap() = 8;
        assert!(it.next_back().is_none());
    }
    assert_eq!(slist.to_vec(), vec![7, 8, 9]);
}

#[test]
fn freed_slot_is_reused_by_a_later_insert() {
    let full: Vec<i32> = (0..MAXLEN as i32).collect();
    let mut list = SLinkedList::from_slice(&full);
    assert!(!list.push_back(-1));
    assert_eq!(list.remove(10), Some(10));
    assert!(list.insert(0, -1));
    assert_eq!(list.len(), MAXLEN);
    assert_eq!(list.front(), Some(&-1));
}

#[test]
fn hashmap_failed_remove_changes_nothing() {
    let mut map = HashMap::from([("b", 1), ("d", 3), ("f", 5), ("a", 0), ("c", 2), ("e", 4)]);
    assert_eq!(map.remove("a"), Some(0));
    assert_eq!(map.count(), 5);
    let before = map.to_vec();
    let len = map.len();
    assert_eq!(map.remove("a"), None);
    assert_eq!(map.to_vec(), before);
    assert_eq!(map.len(), len);
    assert!(map.count() >= map.len());
}
