use algolib::rollinghash::RollingHash;

#[test]
fn rollinghash_add() {
    let a = RollingHash::from_bytes(b"Hello, World!");
    let b = RollingHash::from_bytes(b"Hello, ");
    let c = RollingHash::from_bytes(b"World!");
    assert_eq!(a, b + c);
    assert_ne!(a, c + b);
}

#[test]
fn sub() {
    let a = RollingHash::from_bytes(b"Hello, World!");
    let b = RollingHash::from_bytes(b"Hello, ");
    let c = RollingHash::from_bytes(b"World!");
    assert_eq!(a - c, b);
    assert_ne!(a - b, c);
}

#[test]
fn the_empty_string_changes_nothing() {
    let e = RollingHash::new();
    assert_eq!(e, RollingHash::from_bytes(b""));
    let a = RollingHash::from_bytes(b"abc");
    assert_eq!(a + e, a);
    assert_eq!(e + a, a);
    assert_eq!(a - e, a);
    assert_eq!(a - a, e);
}

#[test]
fn every_cut_of_a_string_adds_up() {
    let text = b"the quick brown fox jumps over the lazy dog";
    let whole = RollingHash::from_bytes(text);
    for i in 0..=text.len() {
        let head = RollingHash::from_bytes(&text[..i]);
        let tail = RollingHash::from_bytes(&text[i..]);
        assert_eq!(head + tail, whole);
        assert_eq!(whole - tail, head);
    }
    assert_ne!(whole, RollingHash::from_bytes(b"the quick brown fox jumps over the lazy dof"));
}
