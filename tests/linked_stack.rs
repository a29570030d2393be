use algorithms_rs::ds::LinkedStack;

const LEN: usize = 6;
const TEST_DATA: [i32; 6] = [0, 1, 2, 3, 4, 5];

// test trait impls

#[test]
fn linked_stack_test_default() {
    let stack = LinkedStack::<i32>::default();
    assert_eq!(stack.len(), 0);
    assert_eq!(stack.peek(), None);
}

#[test]
fn linked_stack_test_from() {
    let stack = LinkedStack::from(TEST_DATA);
    assert_eq!(stack.len(), LEN);
    assert_eq!(stack.to_vec(), TEST_DATA);
}

#[test]
fn linked_stack_test_eq() {
    let stack1 = LinkedStack::from(TEST_DATA);
    let stack2 = LinkedStack::from(TEST_DATA);
    assert_eq!(stack1.to_vec(), stack2.to_vec());
    assert_eq!(stack1.to_vec(), TEST_DATA);
    assert_eq!(stack1.to_vec(), &TEST_DATA[..]);
    assert_eq!(stack1.to_vec(), TEST_DATA.to_vec());
    assert_ne!(stack1.to_vec(), &TEST_DATA[1..]);
}

#[test]
fn linked_stack_test_into_iter() {
    let stack = LinkedStack::from(TEST_DATA);
    let mut iter = stack.into_iter();
    assert_eq!(iter.next(), Some(5));
}

#[test]
fn linked_stack_test_iter() {
    let stack = LinkedStack::from(TEST_DATA);
    let mut iter = stack.iter();
    assert_eq!(iter.next(), Some(&5));
}

#[test]
fn linked_stack_test_iter_mut() {
    let mut stack = LinkedStack::from(TEST_DATA);
    let mut iter = stack.iter_mut();
    while let Some(e) = iter.next() {
        *e += 1;
    }
    assert_eq!(stack.to_vec(), vec![1, 2, 3, 4, 5, 6]);
}

// test impls

#[test]
fn linked_stack_test_new() {
    let stack = LinkedStack::<i32>::new();
    assert_eq!(stack.len(), 0);
    assert_eq!(stack.peek(), None);
}

#[test]
fn linked_stack_test_to_vec() {
    let stack = LinkedStack::from(TEST_DATA);
    assert_eq!(stack.to_vec(), TEST_DATA.to_vec());
}

#[test]
fn linked_stack_test_clear() {
    let mut stack = LinkedStack::from(TEST_DATA);
    stack.clear();
    assert_eq!(stack.len(), 0);
    assert_eq!(stack.to_vec(), Vec::<i32>::new());
}

#[test]
fn linked_stack_test_is_empty() {
    let mut stack = LinkedStack::from(TEST_DATA);
    assert!(!stack.is_empty());
    stack.clear();
    assert!(stack.is_empty());
}

#[test]
fn test_peek() {
    let mut stack = LinkedStack::from(TEST_DATA);
    assert_eq!(stack.peek(), Some(&5));
    stack.clear();
    assert_eq!(stack.peek(), None);
}

#[test]
fn test_peek_mut() {
    let mut stack = LinkedStack::from(TEST_DATA);
    *stack.peek_mut().unwrap() = 10;
    assert_eq!(stack.peek(), Some(&10));
    stack.clear();
    assert_eq!(stack.peek_mut(), None);
}

#[test]
fn linked_stack_test_push() {
    let mut stack = LinkedStack::from(TEST_DATA);
    stack.push(10);
    assert_eq!(stack.to_vec(), vec![0, 1, 2, 3, 4, 5, 10]);
}

#[test]
fn linked_stack_test_pop() {
    let mut stack = LinkedStack::from(TEST_DATA);
    assert_eq!(stack.pop(), Some(5));
    assert_eq!(stack.to_vec(), &TEST_DATA[..5]);
}

#[test]
fn linked_stack_test_display() {
    let mut stack = LinkedStack::from(TEST_DATA);
    assert_eq!(stack.to_string(), "[0 -> 1 -> 2 -> 3 -> 4 -> 5]");
    stack.clear();
    assert_eq!(stack.to_string(), "[]");
}
