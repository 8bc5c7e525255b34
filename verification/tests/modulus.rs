use polynomial::modulus::{Modulus, NTTFriendlyPrime};

const P: u32 = 998_244_353;
type M = Modulus<P>;

fn lcg(state: &mut u64) -> u32 {
    *state = state.wrapping_mul(6364136223846793005).wrapping_add(1442695040888963407);
    (*state >> 33) as u32
}

#[test]
fn conversion() {
    let mut st = 21u64;
    for _ in 0..1 << 15 {
        let i = lcg(&mut st) ^ (lcg(&mut st) << 16);
        let p = M::i2p(i);
        assert_eq!(M::p2i(p), i % P)
    }
    for i in [0u32, 1, P - 1, P, u32::MAX] {
        assert_eq!(M::p2i(M::i2p(i)), i % P);
    }
}

#[test]
fn pow() {
    let mut st = 22u64;
    for _ in 0..1 << 10 {
        let i = lcg(&mut st);
        let p = M::i2p(i);
        let mut pow = M::i2p(1);
        for exp in 0..1 << 5 {
            assert_eq!(M::pow(p, exp), pow);
            pow = M::mul(pow, p);
        }
    }
}

#[test]
fn modulus_mul_values() {
    let a = M::i2p(123_456);
    let b = M::i2p(789_012);
    assert_eq!(M::p2i(M::mul(a, b)), (123_456u64 * 789_012 % P as u64) as u32);
    assert_eq!(M::p2i(M::pow(M::i2p(2), 20)), 1 << 20);
    // a word that is not reduced is reduced by `pow`
    assert_eq!(M::pow(M::i2p(7) + P, 1), M::i2p(7));
}

#[test]
fn modulus_inverse_of_modulus() {
    let inv = M::inv_modulus();
    assert_eq!((P as u64).wrapping_mul(inv), 1);
}

#[test]
fn modulus_ntt_constants() {
    assert_eq!(<M as NTTFriendlyPrime>::PRIMITIVE_ROOT, 3);
    assert_eq!(<M as NTTFriendlyPrime>::D, 23);
    assert_eq!(<M as NTTFriendlyPrime>::A, 119);
    assert_eq!((<M as NTTFriendlyPrime>::A << <M as NTTFriendlyPrime>::D) + 1, P);
}

#[test]
fn modulus_one() {
    // Modulo 1 every residue is 0, and so is every word the functions return.
    type One = Modulus<1>;
    assert_eq!(One::inv_modulus(), 1);
    for x in [0u32, 1, 2, 12345, u32::MAX] {
        assert_eq!(One::i2p(x), 0);
        assert_eq!(One::p2i(x), 0);
        assert_eq!(One::mul(x, 0), 0);
        assert_eq!(One::pow(x, 5), 0);
        assert_eq!(One::pow(x, 0), 0);
    }
    assert_eq!(One::mul(u32::MAX, 0x7fff_ffff), 0);
}
