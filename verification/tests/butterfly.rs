use polynomial::{Butterfly, Mint};

const N: usize = 1 << 8;

const P: u32 = 998_244_353;
type M = Mint<P>;

fn lcg(state: &mut u64) -> u32 {
    *state = state.wrapping_mul(6364136223846793005).wrapping_add(1442695040888963407);
    (*state >> 33) as u32
}

fn random_vec(st: &mut u64, n: usize) -> Vec<u32> {
    (0..n).map(|_| lcg(st) % P).collect()
}

#[test]
fn butterfly() {
    let mut st = 31u64;
    for _ in 0..1 << 12 {
        let src: Vec<_> = random_vec(&mut st, N).into_iter().map(|v| M::new(v)).collect();
        let mut tar = src.clone();
        Butterfly::<998_244_353>::op(&mut tar);
        Butterfly::<998_244_353>::inv(&mut tar);

        assert!((0..N).all(|i| src[i].mul(M::new(N as u32)) == tar[i]));
    }
}

#[test]
fn convolution() {
    let mut st = 32u64;
    for _ in 0..1 << 10 {
        let mut lhs = random_vec(&mut st, N);
        let mut rhs = random_vec(&mut st, N);
        for v in lhs[N / 2..].iter_mut() {
            *v = 0;
        }
        for v in rhs[N / 2..].iter_mut() {
            *v = 0;
        }

        let mut lhs: Vec<_> = lhs.into_iter().map(|v| M::new(v)).collect();
        let mut rhs: Vec<_> = rhs.into_iter().map(|v| M::new(v)).collect();

        let mut naive = vec![M::new(0); N];
        for i in 0..N / 2 {
            for j in 0..N / 2 {
                naive[i + j] = lhs[i].mul(rhs[j]).add(naive[i + j])
            }
        }

        Butterfly::<998_244_353>::circular_convolution(&mut lhs, &mut rhs);

        assert!((0..N).all(|i| lhs[i] == naive[i]));
    }
}

/// The transform of `[a, b]` is `[a + b, a - b]`.
#[test]
fn butterfly_length_two() {
    let mut seq = vec![M::new(5), M::new(7)];
    Butterfly::<998_244_353>::op(&mut seq);
    assert_eq!(seq[0].get(), 12);
    assert_eq!(seq[1].get(), P - 2);
    Butterfly::<998_244_353>::inv(&mut seq);
    assert_eq!(seq[0].get(), 10);
    assert_eq!(seq[1].get(), 14);
}

/// A length-one transform is the identity.
#[test]
fn butterfly_length_one() {
    let mut seq = vec![M::new(42)];
    Butterfly::<998_244_353>::op(&mut seq);
    assert_eq!(seq[0].get(), 42);
    Butterfly::<998_244_353>::inv(&mut seq);
    assert_eq!(seq[0].get(), 42);
}

/// Entry `k` of the transform is the input polynomial at `w^rev(k)`.
#[test]
fn butterfly_matches_bit_reversed_evaluation() {
    let w = M::new(3).pow(119);
    let bit_rev = |k: usize| -> u32 { (k as u32).reverse_bits() >> (32 - 23) };
    let mut st = 33u64;
    for n in [4usize, 8, 16, 64] {
        let x: Vec<_> = random_vec(&mut st, n).into_iter().map(|v| M::new(v)).collect();
        let mut y = x.clone();
        Butterfly::<998_244_353>::op(&mut y);
        for k in 0..n {
            let point = w.pow(bit_rev(k));
            let mut acc = M::new(0);
            let mut pw = M::new(1);
            for j in 0..n {
                acc = acc.add(x[j].mul(pw));
                pw = pw.mul(point);
            }
            assert_eq!(y[k], acc);
        }
    }
}

/// The convolution of `1 + x` with itself in length 4 is `1 + 2x + x^2`.
#[test]
fn convolution_small() {
    let mut lhs = vec![M::new(1), M::new(1), M::new(0), M::new(0)];
    let mut rhs = lhs.clone();
    Butterfly::<998_244_353>::circular_convolution_avx2(&mut lhs, &mut rhs);
    let got: Vec<u32> = lhs.iter().map(|v| v.get()).collect();
    assert_eq!(got, vec![1, 2, 1, 0]);
    // wrap-around: x^3 · x = x^4 = 1 (mod x^4 - 1)
    let mut lhs = vec![M::new(0), M::new(0), M::new(0), M::new(1)];
    let mut rhs = vec![M::new(0), M::new(1), M::new(0), M::new(0)];
    Butterfly::<998_244_353>::circular_convolution(&mut lhs, &mut rhs);
    let got: Vec<u32> = lhs.iter().map(|v| v.get()).collect();
    assert_eq!(got, vec![1, 0, 0, 0]);
}

/// `op` after `inv` also returns the input multiplied by the length.
#[test]
fn op_after_inv() {
    let mut st = 33u64;
    for _ in 0..64 {
        let src: Vec<_> = random_vec(&mut st, N).into_iter().map(|v| M::new(v)).collect();
        let mut tar = src.clone();
        Butterfly::<998_244_353>::inv(&mut tar);
        Butterfly::<998_244_353>::op(&mut tar);

        assert!((0..N).all(|i| src[i].mul(M::new(N as u32)) == tar[i]));
    }
}

/// The convolution does not depend on the order of the inputs, and the avx2
/// entry point gives the same results as the plain one.
#[test]
fn convolution_symmetric_and_avx2() {
    let mut st = 34u64;
    for _ in 0..32 {
        let a: Vec<_> = random_vec(&mut st, N).into_iter().map(|v| M::new(v)).collect();
        let b: Vec<_> = random_vec(&mut st, N).into_iter().map(|v| M::new(v)).collect();
        let (mut x1, mut y1) = (a.clone(), b.clone());
        let (mut x2, mut y2) = (b.clone(), a.clone());
        let (mut x3, mut y3) = (a.clone(), b.clone());
        Butterfly::<998_244_353>::circular_convolution(&mut x1, &mut y1);
        Butterfly::<998_244_353>::circular_convolution(&mut x2, &mut y2);
        Butterfly::<998_244_353>::circular_convolution_avx2(&mut x3, &mut y3);
        assert_eq!(x1, x2);
        assert_eq!(x1, x3);
        assert_eq!(y1, y3);
    }
}
