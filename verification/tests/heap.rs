use leftist_heap::MinHeap;

#[test]
fn insert() {
    let heap = MinHeap::from_iter(&vec![4, 5, 6, 8]);

    assert_eq!(heap.peek_min(), Some(4));
    assert_eq!(heap.rank(), 2);
}

#[test]
fn pop() {
    let heap = MinHeap::from_iter(&vec![4, 1, 2, 3]);
    let mut iter = heap.iter();

    assert_eq!(iter.next(), Some(1));
    assert_eq!(iter.next(), Some(2));
    assert_eq!(iter.next(), Some(3));
    assert_eq!(iter.next(), Some(4));
    assert_eq!(iter.next(), None);
}

#[test]
fn singleton_heap() {
    let heap = MinHeap::new(42);

    assert!(!heap.is_empty());
    assert_eq!(heap.rank(), 1);
    assert_eq!(heap.peek_min(), Some(42));
    assert_eq!(heap.to_sorted_vec(), vec![42]);
}

#[test]
fn is_empty_iff_pop_yields_nothing() {
    let empty = MinHeap::default();
    assert!(empty.is_empty());
    assert_eq!(empty.peek_min(), None);
    let (rest, v) = empty.pop();
    assert_eq!(v, None);
    assert!(rest.is_empty());

    let one = MinHeap::new(2);
    assert!(!one.is_empty());
    let (rest, v) = one.pop();
    assert_eq!(v, Some(2));
    assert!(rest.is_empty());
}

#[test]
fn drain_is_sorted_with_duplicates() {
    let heap = MinHeap::from_iter(&vec![5, 1, 4, 1, 5, 9, 2, 6]);

    assert_eq!(heap.to_sorted_vec(), vec![1, 1, 2, 4, 5, 5, 6, 9]);
}

#[test]
fn merge_groupings_drain_identically() {
    let a = MinHeap::from_iter(&vec![3, 1]);
    let b = MinHeap::from_iter(&vec![2, 2]);
    let c = MinHeap::from_iter(&vec![5, 0]);

    let ab_c = a.merge(&b).merge(&c);
    let a_bc = a.merge(&b.merge(&c));
    let ac_b = a.merge(&c).merge(&b);
    let ba_c = b.merge(&a).merge(&c);

    let expected = vec![0, 1, 2, 2, 3, 5];
    assert_eq!(ab_c.to_sorted_vec(), expected);
    assert_eq!(a_bc.to_sorted_vec(), expected);
    assert_eq!(ac_b.to_sorted_vec(), expected);
    assert_eq!(ba_c.to_sorted_vec(), expected);
}

#[test]
fn merge_with_empty_drains_identically() {
    let heap = MinHeap::from_iter(&vec![7, 3, 9]);
    let empty = MinHeap::default();

    assert_eq!(empty.merge(&heap).to_sorted_vec(), heap.to_sorted_vec());
    assert_eq!(heap.merge(&empty).to_sorted_vec(), heap.to_sorted_vec());
    assert!(empty.merge(&empty).is_empty());
}

#[test]
fn operations_leave_the_source_heap_unchanged() {
    let heap = MinHeap::from_iter(&vec![4, 2, 7]);
    let before = heap.to_sorted_vec();

    let bigger = heap.insert(1);
    let (smaller, min) = heap.pop();

    assert_eq!(min, Some(2));
    assert_eq!(heap.to_sorted_vec(), before);
    assert_eq!(heap.to_sorted_vec(), vec![2, 4, 7]);
    assert_eq!(bigger.to_sorted_vec(), vec![1, 2, 4, 7]);
    assert_eq!(smaller.to_sorted_vec(), vec![4, 7]);
}

#[test]
fn drain_of_empty_signals_end_immediately() {
    let heap = MinHeap::from_iter(&Vec::new());
    let mut iter = heap.iter();

    assert_eq!(iter.next(), None);
    assert!(heap.to_sorted_vec().is_empty());
}

#[test]
fn extreme_values() {
    let heap = MinHeap::from_iter(&vec![u64::MAX, 0, u64::MAX]);

    assert_eq!(heap.to_sorted_vec(), vec![0, u64::MAX, u64::MAX]);
}

#[test]
fn interleaved_inserts_and_pops() {
    let h1 = MinHeap::new(10).insert(5).insert(20);
    let (h2, first) = h1.pop();
    assert_eq!(first, Some(5));

    let h3 = h2.insert(1);
    let (h4, second) = h3.pop();
    assert_eq!(second, Some(1));

    assert_eq!(h4.to_sorted_vec(), vec![10, 20]);
}
