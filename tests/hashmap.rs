use algorithms_rs::ds::hashmap::INIT_CAP;
use algorithms_rs::ds::HashMap;

const LEN: usize = 6;
const TEST_DATA: [(&str, i32); LEN] = [("b", 1), ("d", 3), ("f", 5), ("a", 0), ("c", 2), ("e", 4)];

// test trait impls

#[test]
fn hashmap_test_default() {
    let map = HashMap::<&str, i32>::default();
    assert_eq!(map.len(), 0);
    assert_eq!(map.cap(), INIT_CAP);
}

#[test]
fn hashmap_test_from() {
    let map = HashMap::from(TEST_DATA);
    let data = [("c", 2), ("a", 0), ("e", 4), ("b", 1), ("d", 3), ("f", 5)];
    let map2 = HashMap::from_slice(&data[..]);
    assert_eq!(map.len(), TEST_DATA.len());
    assert!(map.same_pairs(&map2));
}

#[test]
fn hashmap_test_into_iter() {
    let map = HashMap::from(TEST_DATA);
    let mut iter = map.into_iter();
    let mut data = TEST_DATA.to_vec();
    while let Some((k, v)) = iter.next_back() {
        assert_eq!((k, v), data.pop().unwrap());
    }
    assert_eq!(data.len(), 0);
}

// test impls

#[test]
fn hashmap_test_new() {
    let map = HashMap::<&str, i32>::new();
    assert_eq!(map.len(), 0);
    assert_eq!(map.cap(), INIT_CAP);
}

#[test]
fn hashmap_test_with_cap() {
    let map = HashMap::<&str, i32>::with_cap(10);
    assert_eq!(map.len(), 0);
    assert_eq!(map.cap(), 10);
}

#[test]
fn hashmap_test_to_vec() {
    let map = HashMap::from(TEST_DATA);
    assert_eq!(
        map.to_vec().sort_by(|k1, k2| k1.0.cmp(&k2.0)),
        TEST_DATA.to_vec().sort_by(|k1, k2| k1.0.cmp(&k2.0))
    );
}

#[test]
fn test_len_cap_count() {
    let map = HashMap::from(TEST_DATA);
    assert_eq!(map.len(), 6);
    assert_eq!(map.cap(), INIT_CAP);
    assert_eq!(map.count(), map.len());
}

#[test]
fn hashmap_test_clear() {
    let mut map = HashMap::from(TEST_DATA);
    map.clear();
    assert_eq!(map.len(), 0);
    assert_eq!(map.to_vec(), vec![]);
}

#[test]
fn hashmap_test_is_empty() {
    let mut map = HashMap::from(TEST_DATA);
    assert!(!map.is_empty());
    map.clear();
    assert!(map.is_empty());
}

#[test]
fn test_get() {
    let map = HashMap::from(TEST_DATA);
    assert_eq!(map.get("a"), Some(&0));
    assert_eq!(map.get("qqq"), None);
}

#[test]
fn test_get_mut() {
    let mut map = HashMap::from(TEST_DATA);
    let v = map.get_mut("a");
    assert_eq!(v, Some(&mut 0));
    *v.unwrap() = 10;
    assert_eq!(map.get("a"), Some(&10));
    assert_eq!(map.get_mut("qqq"), None);
}

#[test]
fn hashmap_test_insert() {
    let mut map = HashMap::from(TEST_DATA);
    map.insert("a", 10);
    assert_eq!(map.get("a"), Some(&10));
    map.insert("z", 99);
    assert_eq!(map.len(), TEST_DATA.len() + 1);
    assert_eq!(map.get("z"), Some(&99));
}

#[test]
fn hashmap_test_remove() {
    let mut map = HashMap::from(TEST_DATA);
    assert_eq!(map.remove("qqq"), None);
    assert_eq!(map.len(), TEST_DATA.len());
    assert_eq!(map.remove("a"), Some(0));
    assert_eq!(map.len(), TEST_DATA.len() - 1);
}

#[test]
fn hashmap_test_display() {
    let mut map = HashMap::from(TEST_DATA);
    assert_eq!(map.to_string(), "{b: 1, d: 3, f: 5, a: 0, c: 2, e: 4}");
    map.clear();
    assert_eq!(map.to_string(), "{}");
}

#[test]
fn hashmap_display_lists_a_shared_bucket_flat() {
    let mut map = HashMap::<&str, i32>::with_cap(1);
    map.insert("x", 1);
    map.insert("y", 2);
    assert_eq!(map.to_string(), "{x: 1, y: 2}");
}

#[test]
fn hashmap_equality_ignores_bucket_layout() {
    let small = HashMap::from_slice(&TEST_DATA[..]);
    let mut wide = HashMap::<&str, i32>::with_cap(7);
    for (k, v) in TEST_DATA.iter().rev() {
        wide.insert(k, *v);
    }
    assert_ne!(small.cap(), wide.cap());
    assert!(small.same_pairs(&wide));
    wide.insert("a", 42);
    assert!(!small.same_pairs(&wide));
    wide.insert("a", 0);
    wide.insert("z", 26);
    assert!(!small.same_pairs(&wide));
    assert!(!wide.same_pairs(&small));
}

#[test]
fn hashmap_with_integer_keys() {
    let mut map = HashMap::<u64, u64>::new();
    for k in 0..500u64 {
        map.insert(k, k * k);
    }
    assert_eq!(map.count(), 500);
    assert_eq!(map.get(7), Some(&49));
    assert_eq!(map.remove(7), Some(49));
    assert_eq!(map.get(7), None);
    let mut small = HashMap::<u32, &str>::with_cap(3);
    small.insert(1, "one");
    small.insert(1, "uno");
    assert_eq!(small.count(), 1);
    assert_eq!(small.get(1), Some(&"uno"));
}
