use puzzle8::min_heap::MinHeap;

#[test]
fn test_min_heap() {
    let mut heap: MinHeap<&str> = MinHeap::new();
    heap.insert("two", 2);
    heap.insert("three", 3);
    heap.insert("five", 5);
    heap.insert("one", 1);
    heap.insert("four", 4);

    assert_eq!(heap.len(), 5);
    assert_eq!(heap.pop(), Some("one"));
    assert_eq!(heap.pop(), Some("two"));
    assert_eq!(heap.pop(), Some("three"));
    assert_eq!(heap.pop(), Some("four"));
    assert_eq!(heap.pop(), Some("five"));
    assert_eq!(heap.pop(), None);
    assert!(heap.is_empty());
    assert_eq!(heap.len(), 0);
}

#[test]
fn test_min_heap_duplicates() {
    // the same item may be queued several times with different priorities
    let mut heap: MinHeap<u64> = MinHeap::new();
    heap.insert(7, 9);
    heap.insert(7, 1);
    heap.insert(8, 4);
    assert_eq!(heap.len(), 3);
    assert_eq!(heap.pop(), Some(7));
    assert_eq!(heap.pop(), Some(8));
    assert_eq!(heap.pop(), Some(7));
    assert_eq!(heap.pop(), None);
}
