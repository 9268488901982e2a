use datastructs::binary_heap::BinaryHeap;
use datastructs::binary_heap::PriorityTuple;

/// Checks the heap-order invariant on a snapshot of the backing array.
fn assert_heap_order(v: &Vec<u32>) {
    for i in 1..v.len() {
        assert!(v[(i - 1) / 2] <= v[i], "heap order broken at index {}", i);
    }
}

#[test]
fn test_insert() {
    let mut bin: BinaryHeap<u32> = BinaryHeap::new();

    bin.insert(1);
    bin.insert(5);
    bin.insert(10);
    bin.insert(3);
    bin.insert(2);
    bin.insert(6);
    bin.insert(7);
    bin.insert(20);
    assert_eq!(bin.get_heap(), vec![1, 2, 6, 5, 3, 10, 7, 20]);
}

#[test]
fn test_extract() {
    let mut bin: BinaryHeap<u32> = BinaryHeap::new();

    bin.insert(1);
    bin.insert(5);
    bin.insert(10);
    bin.insert(3);
    bin.insert(2);
    bin.insert(6);
    bin.insert(7);
    bin.insert(20);
    assert_eq!(bin.get_heap(), vec![1, 2, 6, 5, 3, 10, 7, 20]);

    let val = bin.extract();
    assert!(val.is_some());
    assert_eq!(val.unwrap(), 1);
    assert_eq!(bin.get_heap(), vec![2, 3, 6, 5, 20, 10, 7]);

    let val = bin.extract();
    assert!(val.is_some());
    assert_eq!(val.unwrap(), 2);
    assert_eq!(bin.get_heap(), vec![3, 5, 6, 7, 20, 10]);
}

#[test]
fn extract_all_sorted() {
    let mut bin: BinaryHeap<u32> = BinaryHeap::new();
    for v in [1, 5, 10, 3, 2, 6, 7, 20] {
        bin.insert(v);
    }
    let mut drained: Vec<u32> = Vec::new();
    while let Some(v) = bin.extract() {
        drained.push(v);
    }
    assert_eq!(drained, vec![1, 2, 3, 5, 6, 7, 10, 20]);
}

#[test]
fn heap_order_after_every_call() {
    let mut bin: BinaryHeap<u32> = BinaryHeap::new();
    let ops: Vec<u32> = vec![9, 4, 17, 4, 0, 25, 3, 12, 8, 1, 30, 2];
    for (k, v) in ops.iter().enumerate() {
        bin.insert(*v);
        assert_heap_order(&bin.get_heap());
        if k % 3 == 2 {
            bin.extract();
            assert_heap_order(&bin.get_heap());
        }
    }
    while !bin.is_empty() {
        bin.extract();
        assert_heap_order(&bin.get_heap());
    }
}

#[test]
fn count_conservation() {
    let mut bin: BinaryHeap<u32> = BinaryHeap::new();
    assert!(bin.is_empty());
    assert_eq!(bin.size(), 0);
    for v in [8, 3, 11, 3, 7] {
        bin.insert(v);
    }
    assert_eq!(bin.size(), 5);
    assert!(!bin.is_empty());
    bin.extract();
    bin.extract();
    assert_eq!(bin.size(), 3);
    assert!(!bin.is_empty());
    bin.extract();
    bin.extract();
    bin.extract();
    assert_eq!(bin.size(), 0);
    assert!(bin.is_empty());
}

#[test]
fn empty_queue_absence() {
    let mut bin: BinaryHeap<u32> = BinaryHeap::new();
    assert!(bin.peek().is_none());
    assert!(bin.extract().is_none());
}

#[test]
fn repeated_extract_stays_absent() {
    let mut bin: BinaryHeap<u32> = BinaryHeap::new();
    bin.insert(4);
    assert_eq!(bin.extract(), Some(4));
    assert!(bin.extract().is_none());
    assert!(bin.extract().is_none());
    assert!(bin.extract().is_none());
}

#[test]
fn peek_leaves_queue_unchanged() {
    let mut bin: BinaryHeap<u32> = BinaryHeap::new();
    bin.insert(6);
    bin.insert(2);
    bin.insert(9);
    assert_eq!(bin.peek(), Some(2));
    assert_eq!(bin.size(), 3);
    assert_eq!(bin.extract(), Some(2));
    assert_eq!(bin.size(), 2);
}

#[test]
fn contains_scans_values() {
    let mut bin: BinaryHeap<u32> = BinaryHeap::new();
    for v in [5, 1, 9] {
        bin.insert(v);
    }
    assert!(bin.contains(9));
    assert!(bin.contains(1));
    assert!(!bin.contains(4));
}

#[test]
fn priority_tuple_equality_ignores_payload() {
    let a: PriorityTuple<u32> = PriorityTuple::new(5, 100);
    let b: PriorityTuple<u32> = PriorityTuple::new(5, 200);
    let c: PriorityTuple<u32> = PriorityTuple::new(3, 100);
    assert!(a == b);
    assert!(a != c);
    assert!(c < a);
    assert!(!(a < b) && !(b < a));
    assert_eq!(a.value, 100);
    assert_eq!(b.value, 200);
}

#[test]
fn priority_tuple_extraction_order() {
    let mut bin: BinaryHeap<PriorityTuple<u32>> = BinaryHeap::new();
    bin.insert(PriorityTuple::new(5, 50));
    bin.insert(PriorityTuple::new(1, 10));
    bin.insert(PriorityTuple::new(5, 55));
    bin.insert(PriorityTuple::new(3, 30));

    let first = bin.extract().unwrap();
    assert!(first == PriorityTuple::new(1, 0));
    assert_eq!(first.value, 10);

    let second = bin.extract().unwrap();
    assert!(second == PriorityTuple::new(3, 0));
    assert_eq!(second.value, 30);

    let third = bin.extract().unwrap();
    let fourth = bin.extract().unwrap();
    assert!(third == PriorityTuple::new(5, 0));
    assert!(fourth == PriorityTuple::new(5, 0));
    // the relative order of equal priorities is unspecified: only the set of
    // payloads is fixed
    let mut payloads = vec![third.value, fourth.value];
    payloads.sort();
    assert_eq!(payloads, vec![50, 55]);

    assert!(bin.extract().is_none());
}

#[test]
fn priority_tuple_contains_by_priority() {
    let mut bin: BinaryHeap<PriorityTuple<u32>> = BinaryHeap::new();
    bin.insert(PriorityTuple::new(4, 1));
    bin.insert(PriorityTuple::new(8, 2));
    assert!(bin.contains(PriorityTuple::new(4, 999)));
    assert!(!bin.contains(PriorityTuple::new(5, 1)));
}
