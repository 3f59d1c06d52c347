use hnsw_itu::NHeap;

#[test]
fn new() {
    NHeap::<2, u32>::new();
}

#[test]
fn from_iter() {
    let heap = NHeap::<2, _>::from_vec(vec![1, 2, 3, 4, 3, 2, 1]);
    assert!(Iterator::eq(
        heap.into_vec().into_iter(),
        vec![4, 3, 3, 2, 1, 2, 1].into_iter()
    ));
}

#[test]
fn from_iter_empty() {
    let heap = NHeap::<6, _>::from_vec(Vec::<i32>::new());
    assert!(heap.is_empty());
}

#[test]
fn width() {
    assert_eq!(NHeap::<2, u32>::new().width(), 2);
}

#[test]
fn is_empty() {
    let mut heap = NHeap::<2, _>::new();
    assert!(heap.is_empty());
    heap.push(1);
    assert!(!heap.is_empty());
}

#[test]
fn clear() {
    let mut heap = NHeap::<2, _>::new();
    heap.push(1);
    assert!(!heap.is_empty());
    heap.clear();
    assert!(heap.is_empty());
}

#[test]
fn len() {
    let mut heap = NHeap::<2, _>::new();
    assert_eq!(heap.len(), 0);
    heap.push(1);
    assert_eq!(heap.len(), 1);
    heap.push(1);
    assert_eq!(heap.len(), 2);
    heap.pop();
    assert_eq!(heap.len(), 1);
    heap.clear();
    assert_eq!(heap.len(), 0);
}

#[test]
fn into_iter() {
    let heap = NHeap::<4, _>::from_vec(vec![
        1, 2, 3, 4, 5, 6, 7, 8, 9, 0, 9, 8, 7, 6, 5, 4, 3, 2, 1,
    ]);

    let mut items = vec![0, 1, 1, 2, 2, 3, 3, 4, 4, 5, 5, 6, 6, 7, 7, 8, 8, 9, 9];
    for n in heap.into_vec() {
        items.remove(items.iter().position(|&i| i == n).unwrap());
    }
    assert!(items.is_empty());
}

#[test]
fn push() {
    let mut heap = NHeap::<4, _>::new();
    heap.push(1);
    heap.push(1);
    heap.push(1);
    heap.push(1);
    heap.push(2);
    assert_eq!(heap.len(), 5);
    assert_eq!(heap.peek(), Some(&2));
}

#[test]
fn pop() {
    let mut heap = NHeap::<3, _>::from_vec(vec![1, 2, 1, 3, 1, 4, 2, 3]);
    assert_eq!(heap.pop(), Some(4));
    assert_eq!(heap.pop(), Some(3));
    assert_eq!(heap.pop(), Some(3));
    assert_eq!(heap.pop(), Some(2));
    assert_eq!(heap.pop(), Some(2));
    assert_eq!(heap.pop(), Some(1));
    assert_eq!(heap.pop(), Some(1));
    assert_eq!(heap.pop(), Some(1));
    assert_eq!(heap.pop(), None);
    assert_eq!(heap.pop(), None);
}

#[test]
fn poppush() {
    let mut heap = NHeap::<2, _>::from_vec(vec![1, 3, 4]);
    assert_eq!(heap.poppush(2), Some(4));
    assert_eq!(heap.poppush(4), Some(3));
    assert_eq!(heap.poppush(1), Some(4));
    heap.clear();
    assert_eq!(heap.poppush(1), None);
}

#[test]
fn peek() {
    let mut heap =
        NHeap::<4, _>::from_vec(vec![1, 5, 3, 8, 9, 3, 6, 9, 6, 2, 0, 5, 0, 0, 0, 5, 3, 1]);
    assert_eq!(heap.peek(), Some(&9));
    heap.clear();
    assert_eq!(heap.peek(), None);
}
