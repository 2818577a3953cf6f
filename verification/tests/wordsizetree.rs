use algolib::wordsizetree::{WordSizeTree18, WordSizeTree24};

#[test]
fn wst18() {
    let mut v = WordSizeTree18::new();
    assert!(v.is_empty());
    assert!(!v.has(31415));
    assert!(!v.has(92653));
    assert!(!v.has(58979));
    v.add(92653);
    assert!(!v.is_empty());
    assert!(!v.has(31415));
    assert!(v.has(92653));
    assert!(!v.has(58979));
    v.add(32384);
    v.add(62643);
    v.add(38327);
    assert_eq!(v.min(), Some(32384));
    v.delete(32384);
    v.delete(116);
    assert_eq!(v.min(), Some(38327));
    v.delete(38327);
    assert_eq!(v.min(), Some(62643));
    v.delete(62643);
    assert_eq!(v.min(), Some(92653));
    v.delete(92653);
    assert_eq!(v.min(), None);
}

#[test]
fn wst24() {
    let mut v = WordSizeTree24::new();
    assert!(v.is_empty());
    assert!(!v.has(3141592));
    assert!(!v.has(6535897));
    assert!(!v.has(9323846));
    v.add(6535897);
    assert!(!v.is_empty());
    assert!(!v.has(3141592));
    assert!(v.has(6535897));
    assert!(!v.has(9323846));
    v.add(2643383);
    v.add(2795028);
    v.add(8419794);
    assert_eq!(v.min(), Some(2643383));
    v.delete(2643383);
    v.delete(2718);
    assert_eq!(v.min(), Some(2795028));
    v.delete(2795028);
    assert_eq!(v.min(), Some(6535897));
    v.delete(6535897);
    assert_eq!(v.min(), Some(8419794));
    v.delete(8419794);
    assert_eq!(v.min(), None);
}

#[test]
fn the_ends_of_the_ranges() {
    let mut small = WordSizeTree18::new();
    small.add(262143);
    small.add(0);
    small.add(64);
    small.add(63);
    assert_eq!(small.min(), Some(0));
    small.delete(0);
    assert_eq!(small.min(), Some(63));
    small.delete(63);
    assert_eq!(small.min(), Some(64));
    small.delete(64);
    assert_eq!(small.min(), Some(262143));
    assert!(small.has(262143));
    small.add(262143);
    small.delete(262143);
    assert!(small.is_empty());

    let mut large = WordSizeTree24::new();
    large.add(16777215);
    large.add(4096);
    large.add(4095);
    assert_eq!(large.min(), Some(4095));
    large.delete(4095);
    assert_eq!(large.min(), Some(4096));
    large.delete(4096);
    assert_eq!(large.min(), Some(16777215));
    large.delete(16777215);
    assert!(large.is_empty());
}
