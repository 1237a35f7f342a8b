use kupsy::ds::{MaxHeap, MinHeap};

#[test]
fn min_heap_hands_out_ascending() {
    let mut heap = MinHeap::new();
    for value in [5, 1, 8, 3, 9, 2, 7, 3, 0, 6] {
        heap.push(value);
    }
    assert_eq!(heap.len(), 10);
    assert_eq!(heap.peek(), Some(&0));
    let mut out = Vec::new();
    while let Some(value) = heap.pop() {
        out.push(value);
    }
    assert_eq!(out, vec![0, 1, 2, 3, 3, 5, 6, 7, 8, 9]);
    assert_eq!(heap.len(), 0);
    assert_eq!(heap.peek(), None);
    assert_eq!(heap.pop(), None);
}

#[test]
fn max_heap_hands_out_descending() {
    let mut heap = MaxHeap::new();
    for value in [5, 1, 8, 3, 9, 2, 7, 3, 0, 6] {
        heap.push(value);
    }
    assert_eq!(heap.len(), 10);
    assert_eq!(heap.peek(), Some(&9));
    let mut out = Vec::new();
    while let Some(value) = heap.pop() {
        out.push(value);
    }
    assert_eq!(out, vec![9, 8, 7, 6, 5, 3, 3, 2, 1, 0]);
    assert_eq!(heap.len(), 0);
    assert_eq!(heap.peek(), None);
    assert_eq!(heap.pop(), None);
}

#[test]
fn heaps_take_values_that_are_not_copied() {
    let mut least = MinHeap::new();
    let mut greatest = MaxHeap::new();
    for word in ["pear", "apple", "quince", "fig"] {
        least.push(word.to_string());
        greatest.push(word.to_string());
    }
    assert_eq!(least.pop(), Some("apple".to_string()));
    assert_eq!(least.pop(), Some("fig".to_string()));
    assert_eq!(greatest.pop(), Some("quince".to_string()));
    assert_eq!(greatest.pop(), Some("pear".to_string()));
    assert_eq!(least.len(), 2);
    assert_eq!(greatest.len(), 2);
}

#[test]
fn heap_interleaves_pushes_and_pops() {
    let mut heap = MinHeap::new();
    heap.push(4);
    heap.push(2);
    assert_eq!(heap.pop(), Some(2));
    heap.push(1);
    heap.push(3);
    assert_eq!(heap.pop(), Some(1));
    assert_eq!(heap.pop(), Some(3));
    heap.push(0);
    assert_eq!(heap.pop(), Some(0));
    assert_eq!(heap.pop(), Some(4));
    assert_eq!(heap.pop(), None);
}
