use algolib::fft::{can_transform, convolution, fft, ifft};
use algolib::modint::ModInt;

type Mint = ModInt<998244353>;

fn mints(v: &[u32]) -> Vec<Mint> {
    v.iter().map(|&x| Mint::new(x)).collect()
}

fn vals(v: &[Mint]) -> Vec<u32> {
    v.iter().map(|x| x.val()).collect()
}

#[test]
fn fft_ifft() {
    let a = mints(&[3, 1, 4, 1, 5, 9, 2, 6]);
    let mut b = a.clone();
    fft(&mut b);
    ifft(&mut b);
    assert_eq!(vals(&a), vals(&b));
}

#[test]
fn the_transform_is_the_sum_of_powers_of_the_root() {
    // 3 gives the roots modulo 998244353, whose totient is 119 * 2^23
    let n = 8u32;
    let top = Mint::new(3).pow(119);
    let mut w = top;
    for _ in 0..20 {
        w = w * w;
    }
    assert_eq!(w.pow(8).val(), 1);
    assert_eq!(w.pow(4).val(), 998244352);
    let a = mints(&[3, 1, 4, 1, 5, 9, 2, 6]);
    let mut b = a.clone();
    fft(&mut b);
    for k in 0..n {
        let mut sum = Mint::new(0);
        for t in 0..n {
            sum = sum + a[t as usize] * w.pow(t * k);
        }
        assert_eq!(b[k as usize].val(), sum.val());
    }
}

#[test]
fn transform_of_one_element_and_of_two() {
    let mut one = mints(&[7]);
    fft(&mut one);
    assert_eq!(vals(&one), [7]);
    ifft(&mut one);
    assert_eq!(vals(&one), [7]);
    let mut two = mints(&[5, 3]);
    fft(&mut two);
    assert_eq!(vals(&two), [8, 2]);
    ifft(&mut two);
    assert_eq!(vals(&two), [5, 3]);
}

#[test]
fn back_and_forth_for_many_lengths() {
    let mut x: u64 = 88172645463325252;
    for levels in 0..11 {
        let n = 1usize << levels;
        let mut a: Vec<Mint> = Vec::new();
        for _ in 0..n {
            x ^= x << 13;
            x ^= x >> 7;
            x ^= x << 17;
            a.push(Mint::new((x % 998244353) as u32));
        }
        let mut b = a.clone();
        fft(&mut b);
        ifft(&mut b);
        assert_eq!(vals(&a), vals(&b));
        let mut c = a.clone();
        ifft(&mut c);
        fft(&mut c);
        assert_eq!(vals(&a), vals(&c));
    }
}

#[test]
fn conv() {
    let a = mints(&[3, 1, 4, 1, 5, 9, 2, 6]);
    let b = mints(&[5, 3, 5, 8, 9, 7, 9, 3]);
    let mut c = [Mint::new(0); 15];
    for i in 0..8 {
        for j in 0..8 {
            c[i + j] = c[i + j] + a[i] * b[j];
        }
    }
    assert_eq!(vals(&convolution(&a, &b)), vals(&c));
}

#[test]
fn product_of_polynomials_of_any_lengths() {
    let mut x: u64 = 0x853c49e6748fea9b;
    for la in 0..9usize {
        for lb in 0..9usize {
            if la + lb == 0 {
                continue;
            }
            let mut a: Vec<Mint> = Vec::new();
            let mut b: Vec<Mint> = Vec::new();
            for _ in 0..la {
                x ^= x << 13;
                x ^= x >> 7;
                x ^= x << 17;
                a.push(Mint::new((x % 998244353) as u32));
            }
            for _ in 0..lb {
                x ^= x << 13;
                x ^= x >> 7;
                x ^= x << 17;
                b.push(Mint::new((x % 998244353) as u32));
            }
            let mut want = vec![Mint::new(0); la + lb - 1];
            for i in 0..la {
                for j in 0..lb {
                    want[i + j] = want[i + j] + a[i] * b[j];
                }
            }
            assert_eq!(vals(&convolution(&a, &b)), vals(&want));
        }
    }
}

#[test]
fn product_where_the_modulus_has_no_roots() {
    // 2 divides the totient of 7 once only, and 10 is no prime
    let a7: Vec<ModInt<7>> = [3u32, 1, 4, 1, 5].iter().map(|&v| ModInt::<7>::new(v)).collect();
    let b7: Vec<ModInt<7>> = [2u32, 6, 5].iter().map(|&v| ModInt::<7>::new(v)).collect();
    let got: Vec<u32> = convolution(&a7, &b7).iter().map(|v| v.val()).collect();
    // (3 + x + 4x^2 + x^3 + 5x^4)(2 + 6x + 5x^2) modulo 7
    assert_eq!(got, [6, 6, 1, 3, 1, 0, 4]);
    let a10: Vec<ModInt<10>> = [7u32, 8].iter().map(|&v| ModInt::<10>::new(v)).collect();
    let b10: Vec<ModInt<10>> = [9u32, 4, 3].iter().map(|&v| ModInt::<10>::new(v)).collect();
    let got: Vec<u32> = convolution(&a10, &b10).iter().map(|v| v.val()).collect();
    assert_eq!(got, [3, 0, 3, 4]);
}

#[test]
fn long_product_goes_by_the_transform() {
    let n = 300usize;
    let a: Vec<Mint> = (0..n).map(|i| Mint::new((i * i + 1) as u32)).collect();
    let b: Vec<Mint> = (0..n).map(|i| Mint::new((3 * i + 7) as u32)).collect();
    let mut want = vec![Mint::new(0); 2 * n - 1];
    for i in 0..n {
        for j in 0..n {
            want[i + j] = want[i + j] + a[i] * b[j];
        }
    }
    assert_eq!(vals(&convolution(&a, &b)), vals(&want));
}

#[test]
fn lengths_that_can_be_transformed() {
    assert!(can_transform::<998244353>(1));
    assert!(can_transform::<998244353>(8));
    assert!(can_transform::<998244353>(1 << 23));
    assert!(!can_transform::<998244353>(1 << 24));
    assert!(!can_transform::<998244353>(0));
    assert!(!can_transform::<998244353>(6));
    // the totient of 7 is 6, which 2 divides once
    assert!(can_transform::<7>(1));
    assert!(can_transform::<7>(2));
    assert!(!can_transform::<7>(4));
    // no number gives the roots modulo 8
    assert!(can_transform::<8>(1));
    assert!(!can_transform::<8>(2));
    let mut a: Vec<ModInt<7>> = vec![ModInt::<7>::new(3), ModInt::<7>::new(5)];
    fft(&mut a);
    assert_eq!(a[0].val(), 1);
    assert_eq!(a[1].val(), 5);
    ifft(&mut a);
    assert_eq!(a[0].val(), 3);
    assert_eq!(a[1].val(), 5);
}
