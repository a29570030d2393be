use algorithms_rs::ds::SqList;

const LEN: usize = 6;
const TEST_DATA: [i32; LEN] = [0, 1, 2, 3, 4, 5];

// test trait impls

#[test]
fn sqlist_test_default() {
    let list = SqList::<i32>::default();
    assert_eq!(list.len(), 0);
}

#[test]
fn sqlist_test_from() {
    let list = SqList::from(TEST_DATA);
    assert_eq!(list.len(), LEN);
    assert_eq!(list.as_slice(), TEST_DATA);
}

#[test]
fn sqlist_test_eq() {
    let list1 = SqList::from(TEST_DATA);
    let list2 = SqList::from(TEST_DATA);
    assert_eq!(list1.as_slice(), list2.as_slice());
    assert_eq!(list1.as_slice(), TEST_DATA);
    assert_eq!(list1.as_slice(), &TEST_DATA[..]);
    assert_eq!(list1.as_slice().to_vec(), TEST_DATA.to_vec());
    assert_ne!(list1.as_slice(), &TEST_DATA[1..]);
}

// test impls

#[test]
fn sqlist_test_new() {
    let list = SqList::<i32>::new();
    assert_eq!(list.len(), 0);
}

#[test]
fn sqlist_test_clear() {
    let mut list = SqList::from(TEST_DATA);
    list.clear();
    assert_eq!(list.len(), 0);
    assert_eq!(list.as_slice(), &[] as &[i32]);
}

#[test]
fn sqlist_test_contains() {
    let mut list = SqList::from(TEST_DATA);
    assert!(list.contains(&3));
    list.clear();
    assert!(!list.contains(&5));
}

#[test]
fn sqlist_test_find() {
    let list = SqList::from(TEST_DATA);
    assert_eq!(list.find(&3), Some(3));
    assert_eq!(list.find(&99), None);
}

#[test]
fn sqlist_test_find_all() {
    let list = SqList::from(TEST_DATA);
    assert_eq!(list.find_all(&3), vec![3]);
    assert_eq!(list.find_all(&99), vec![]);
}

#[test]
fn sqlist_test_insert() {
    let mut list = SqList::from(TEST_DATA);
    assert!(list.insert(0, 10));
    assert_eq!(list.as_slice()[0], 10);
    assert_eq!(list.len(), LEN + 1);

    assert!(list.insert(6, 10));
    assert_eq!(list.as_slice()[6], 10);
    assert_eq!(list.len(), LEN + 2);

    assert!(list.insert(3, 10));
    assert_eq!(list.as_slice()[3], 10);
    assert_eq!(list.len(), LEN + 3);

    assert!(!list.insert(99, 10));
    assert_eq!(list.len(), LEN + 3);
}

#[test]
fn sqlist_test_remove() {
    let mut list = SqList::from(TEST_DATA);
    assert_eq!(list.remove(0), Some(0));
    assert_eq!(list.len(), LEN - 1);
    assert_eq!(list.as_slice(), &TEST_DATA[1..]);

    assert_eq!(list.remove(4), Some(5));
    assert_eq!(list.len(), LEN - 2);
    assert_eq!(list.as_slice(), &TEST_DATA[1..5]);

    assert_eq!(list.remove(99), None);
    assert_eq!(list.len(), LEN - 2);

    list.clear();
    assert_eq!(list.remove(0), None);
}

#[test]
fn sqlist_test_push_front() {
    let mut list = SqList::from(TEST_DATA);
    assert!(list.push_front(10));
    assert_eq!(list.as_slice()[0], 10);
    assert_eq!(list.len(), LEN + 1);
}

#[test]
fn sqlist_test_push_back() {
    let mut list = SqList::from(TEST_DATA);
    assert!(list.push_back(10));
    assert_eq!(list.as_slice()[6], 10);
    assert_eq!(list.len(), LEN + 1);
}

#[test]
fn sqlist_test_pop_front() {
    let mut list = SqList::from(TEST_DATA);
    assert_eq!(list.pop_front(), Some(0));
    assert_eq!(list.len(), LEN - 1);
    assert_eq!(list.as_slice(), &TEST_DATA[1..]);

    list.clear();
    assert_eq!(list.pop_front(), None);
}

#[test]
fn sqlist_test_pop_back() {
    let mut list = SqList::from(TEST_DATA);
    assert_eq!(list.pop_back(), Some(5));
    assert_eq!(list.len(), LEN - 1);
    assert_eq!(list.as_slice(), &TEST_DATA[..LEN - 1]);

    list.clear();
    assert_eq!(list.pop_back(), None);
}

#[test]
fn sqlist_test_display() {
    let mut list = SqList::from(TEST_DATA);
    assert_eq!(list.to_string(), "[0, 1, 2, 3, 4, 5]");
    list.clear();
    assert_eq!(list.to_string(), "[]");
}
