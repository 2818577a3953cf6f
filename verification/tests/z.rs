use algolib::z::z;

fn naive_z(slice: &[u8]) -> Vec<usize> {
    let mut z = vec![];
    z.push(slice.len());
    for i in 1..slice.len() {
        for j in 0.. {
            if slice.get(j) != slice.get(i + j) {
                z.push(j);
                break;
            }
        }
    }
    z
}

#[test]
fn z_test() {
    let a = b"atatata_and_atatata";
    let b = b"tentekotenten";
    let c = b"atatatatatatatatatata";
    let d = b"okayamaken_okayamashi";
    assert_eq!(z(a), naive_z(a));
    assert_eq!(z(b), naive_z(b));
    assert_eq!(z(c), naive_z(c));
    assert_eq!(z(d), naive_z(d));
}
