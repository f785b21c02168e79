use design_kit::min_stack::{MinStack, Stack};

#[test]
fn test_min_stack() {
    let mut min_stack = MinStack::new();
    min_stack.push(3);
    min_stack.push(5);
    min_stack.push(2);
    min_stack.push(1);
    min_stack.push(4);

    assert_eq!(min_stack.top(), 4);
    assert_eq!(min_stack.get_min(), 1);

    min_stack.pop();
    assert_eq!(min_stack.top(), 1);
    assert_eq!(min_stack.get_min(), 1);

    min_stack.pop();
    assert_eq!(min_stack.top(), 2);
    assert_eq!(min_stack.get_min(), 2);

    min_stack.pop();
    assert_eq!(min_stack.top(), 5);
    assert_eq!(min_stack.get_min(), 3);

    min_stack.pop();
    assert_eq!(min_stack.top(), 3);
    assert_eq!(min_stack.get_min(), 3);

    min_stack.pop();
    assert_eq!(min_stack.top(), -1);
    assert_eq!(min_stack.get_min(), -1);
}

#[test]
fn test_empty_stack() {
    let min_stack = MinStack::new();
    assert_eq!(min_stack.top(), -1);
    assert_eq!(min_stack.get_min(), -1);
}

#[test]
fn test_min_updates() {
    let mut min_stack = MinStack::new();
    min_stack.push(5);
    assert_eq!(min_stack.get_min(), 5);

    min_stack.push(3);
    assert_eq!(min_stack.get_min(), 3);

    min_stack.push(7);
    assert_eq!(min_stack.get_min(), 3);

    min_stack.pop();
    assert_eq!(min_stack.get_min(), 3);

    min_stack.pop();
    assert_eq!(min_stack.get_min(), 5);
}

#[test]
fn generic_stack_order() {
    let mut s: Stack<u8> = Stack::new();
    assert!(s.is_empty());
    s.push(1);
    s.push(2);
    assert_eq!(s.top(), Some(&2));
    assert_eq!(s.pop(), Some(2));
    assert_eq!(s.pop(), Some(1));
    assert_eq!(s.pop(), None);
    assert!(s.is_empty());
}
