use algolib::modint::ModInt;

#[test]
fn prime() {
    type Mint = ModInt<998244353>;
    let a = Mint::new(3141592653);
    let b = Mint::new(2718281828);
    assert_eq!((a + b).val(), 868652716);
    assert_eq!((a - b).val(), 423310825);
    assert_eq!((a * b).val(), 675854546);
    assert_eq!((a / b).val(), 877474378);
}

#[test]
fn non_prime() {
    type Mint = ModInt<123456789>;
    let a = Mint::new(577215664);
    let b = Mint::new(2718281828);
    assert_eq!((a + b).val(), 85620978);
    assert_eq!((a - b).val(), 81156038);
    assert_eq!((a * b).val(), 121926614);
    assert_eq!((a / b).val(), 44131967);
}
