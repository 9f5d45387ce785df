use dslab::binary_heap::BinaryHeap;

#[test]
fn binary_heap_test_push_and_pop() {
    let mut heap = BinaryHeap::new();
    heap.push(2);
    heap.push(8);
    heap.push(1);
    heap.push(9);
    heap.push(5);
    heap.push(4);
    heap.push(6);
    heap.push(3);
    while !heap.is_empty() {
        println!("{:?}", heap.pop());
    }
}

#[test]
fn heap_pops_ascending() {
    let mut heap = BinaryHeap::new();
    for v in [2i64, 8, 1, 9, 5, 4, 6, 3] {
        heap.push(v);
    }
    let mut out: Vec<i64> = Vec::new();
    while !heap.is_empty() {
        out.push(heap.pop().unwrap());
    }
    assert_eq!(out, vec![1, 2, 3, 4, 5, 6, 8, 9]);
}

#[test]
fn heap_pop_on_empty_is_none() {
    let mut heap = BinaryHeap::new();
    assert_eq!(heap.pop(), None);
    heap.push(7);
    assert_eq!(heap.pop(), Some(7));
    assert_eq!(heap.pop(), None);
}

#[test]
fn heap_keeps_duplicates() {
    let mut heap = BinaryHeap::new();
    for v in [5i64, 3, 5, 3] {
        heap.push(v);
    }
    let mut out: Vec<i64> = Vec::new();
    while !heap.is_empty() {
        out.push(heap.pop().unwrap());
    }
    assert_eq!(out, vec![3, 3, 5, 5]);
}
