use design_kit::median::MedianFinder;
use design_kit::peeking::PeekingIterator;

#[test]
fn median_middle_values() {
    let mut m = MedianFinder::new();
    assert_eq!(m.middle(), None);
    m.add_num(5);
    assert_eq!(m.middle(), Some((5, 5)));
    m.add_num(1);
    assert_eq!(m.middle(), Some((1, 5)));
    m.add_num(3);
    assert_eq!(m.middle(), Some((3, 3)));
    m.add_num(3);
    m.add_num(-2);
    m.add_num(8);
    assert_eq!(m.middle(), Some((3, 3)));
    m.add_num(10);
    assert_eq!(m.middle(), Some((3, 3)));
    m.add_num(11);
    assert_eq!(m.middle(), Some((3, 5)));
}

#[test]
fn peeking_example() {
    let mut it = PeekingIterator::new(vec![1, 2, 3]);
    assert_eq!(it.next(), Some(1));
    assert_eq!(it.peek(), Some(&2));
    assert_eq!(it.peek(), Some(&2));
    assert_eq!(it.next(), Some(2));
    assert!(it.has_next());
    assert_eq!(it.next(), Some(3));
    assert!(!it.has_next());
    assert_eq!(it.peek(), None);
    assert_eq!(it.next(), None);
}

#[test]
fn peeking_empty() {
    let mut it: PeekingIterator<i32> = PeekingIterator::new(Vec::new());
    assert!(!it.has_next());
    assert_eq!(it.peek(), None);
    assert_eq!(it.next(), None);
}
