use algolib::persistentarray::PersistentArray;

fn filled(n: i32) -> PersistentArray<i32> {
    let mut a = PersistentArray::new();
    for v in 0..n {
        a.push(v);
    }
    a
}

#[test]
fn persistentarray_test() {
    let a = filled(10);
    assert_eq!(a.len(), 10);
    assert_eq!(*a.get(3), 3);
    let mut b = a.clone();
    assert_eq!(b.len(), 10);
    assert_eq!(*b.get(3), 3);
    b.set(3, 7);
    assert_eq!(*b.get(3), 7);
    assert_eq!(*a.get(3), 3);
}

#[test]
fn push_and_pop_at_every_length() {
    let mut a: PersistentArray<i32> = PersistentArray::new();
    assert!(a.is_empty());
    assert_eq!(a.pop(), None);
    let mut kept = Vec::new();
    for n in 0..70 {
        kept.push(a.clone());
        a.push(n * 3);
        assert_eq!(a.len(), n as usize + 1);
        for i in 0..=n {
            assert_eq!(*a.get(i as usize), i * 3);
        }
    }
    for (n, old) in kept.iter().enumerate() {
        assert_eq!(old.len(), n);
    }
    for n in (0..70).rev() {
        assert_eq!(a.pop(), Some(n * 3));
        assert_eq!(a.len(), n as usize);
    }
    assert!(a.is_empty());
    assert_eq!(kept[69].len(), 69);
    assert_eq!(*kept[69].get(68), 204);
}
