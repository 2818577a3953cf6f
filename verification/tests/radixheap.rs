use algolib::radixheap::{RadixHeap, RadixIter};

#[test]
fn unsigned_int() {
    let mut heap = RadixHeap::<u32>::new();
    heap.push(314159);
    heap.push(0);
    heap.push(265358);
    heap.push(u32::MAX);
    assert_eq!(heap.len(), 4);
    assert_eq!(heap.pop(), Some(0));
    assert_eq!(heap.pop(), Some(265358));
    assert_eq!(heap.len(), 2);
    heap.push(979323);
    heap.push(846264);
    assert_eq!(heap.len(), 4);
    assert_eq!(heap.pop(), Some(314159));
    assert_eq!(heap.pop(), Some(846264));
    assert_eq!(heap.pop(), Some(979323));
    assert_eq!(heap.pop(), Some(u32::MAX));
    assert_eq!(heap.pop(), None);
    assert_eq!(heap.len(), 0);
}

#[test]
fn signed_int() {
    let mut heap = RadixHeap::<i32>::new();
    heap.push(-314159);
    heap.push(0);
    heap.push(-265358);
    heap.push(i32::MAX);
    heap.push(i32::MIN);
    assert_eq!(heap.len(), 5);
    assert_eq!(heap.pop(), Some(i32::MIN));
    assert_eq!(heap.pop(), Some(-314159));
    assert_eq!(heap.pop(), Some(-265358));
    assert_eq!(heap.len(), 2);
    heap.push(979323);
    heap.push(846264);
    assert_eq!(heap.len(), 4);
    assert_eq!(heap.pop(), Some(0));
    assert_eq!(heap.pop(), Some(846264));
    assert_eq!(heap.pop(), Some(979323));
    assert_eq!(heap.pop(), Some(i32::MAX));
    assert_eq!(heap.pop(), None);
    assert_eq!(heap.len(), 0);
}

#[test]
fn equal_elements_come_out_as_often_as_they_went_in() {
    let mut heap = RadixHeap::<u32>::new();
    assert!(heap.is_empty());
    assert_eq!(*heap.last(), 0);
    for v in [7, 7, 3, 9, 3, 7] {
        heap.push(v);
    }
    let mut out = Vec::new();
    let mut iter = RadixIter(heap);
    assert_eq!(iter.len(), 6);
    while let Some(v) = iter.next() {
        out.push(v);
    }
    assert_eq!(out, vec![3, 3, 7, 7, 7, 9]);
    assert_eq!(*iter.0.last(), 9);
}

#[test]
fn heaps_of_other_integer_types_give_the_least_first() {
    let mut wide: RadixHeap<u64> = RadixHeap::new();
    for v in [1u64 << 40, 7, u64::MAX, 1 << 63, 0, 7] {
        wide.push(v);
    }
    let mut got = Vec::new();
    while let Some(v) = wide.pop() {
        got.push(v);
    }
    assert_eq!(got, [0, 7, 7, 1 << 40, 1 << 63, u64::MAX]);

    let mut signed: RadixHeap<i64> = RadixHeap::new();
    for v in [5i64, -3, i64::MIN, i64::MAX, 0, -3] {
        signed.push(v);
    }
    let mut got = Vec::new();
    while let Some(v) = signed.pop() {
        got.push(v);
    }
    assert_eq!(got, [i64::MIN, -3, -3, 0, 5, i64::MAX]);

    let mut small: RadixHeap<u8> = RadixHeap::new();
    for v in [200u8, 3, 255, 0, 128] {
        small.push(v);
    }
    assert_eq!(small.pop(), Some(0));
    small.push(2);
    assert_eq!(small.pop(), Some(2));
    assert_eq!(small.pop(), Some(3));
    assert_eq!(small.pop(), Some(128));
    assert_eq!(small.pop(), Some(200));
    assert_eq!(small.pop(), Some(255));
    assert_eq!(small.pop(), None);

    let mut short: RadixHeap<i16> = RadixHeap::new();
    for v in [-1i16, i16::MIN, 300, -300] {
        short.push(v);
    }
    assert_eq!(short.pop(), Some(i16::MIN));
    assert_eq!(short.pop(), Some(-300));
    assert_eq!(short.pop(), Some(-1));
    assert_eq!(short.pop(), Some(300));
}

#[test]
fn heaps_of_128_bits_give_the_least_first() {
    let mut wide: RadixHeap<u128> = RadixHeap::new();
    let values = [1u128 << 100, 7, u128::MAX, 1 << 64, (1 << 64) - 1, 0, 1 << 127, 7, (1 << 100) + 1];
    for v in values {
        wide.push(v);
    }
    let mut got = Vec::new();
    while let Some(v) = wide.pop() {
        got.push(v);
    }
    let mut want = values.to_vec();
    want.sort();
    assert_eq!(got, want);

    let mut signed: RadixHeap<i128> = RadixHeap::new();
    let values = [5i128, -3, i128::MIN, i128::MAX, 0, -(1 << 90), 1 << 90, -1];
    for v in values {
        signed.push(v);
    }
    assert_eq!(signed.pop(), Some(i128::MIN));
    signed.push(i128::MIN + 1);
    let mut got = Vec::new();
    while let Some(v) = signed.pop() {
        got.push(v);
    }
    assert_eq!(got, [i128::MIN + 1, -(1 << 90), -3, -1, 0, 5, 1 << 90, i128::MAX]);
}
