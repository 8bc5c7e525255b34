use polynomial::Mint;

const P: u32 = 998_244_353;
type M = Mint<P>;

/// A small deterministic generator for test inputs.
fn lcg(state: &mut u64) -> u32 {
    *state = state.wrapping_mul(6364136223846793005).wrapping_add(1442695040888963407);
    (*state >> 33) as u32
}

#[test]
fn mul() {
    let mut st = 1u64;
    for _ in 0..1 << 15 {
        let a = 1 + lcg(&mut st) % (P - 1);
        let b = 1 + lcg(&mut st) % (P - 1);
        let prod = M::new(a).mul(M::new(b)).get();
        let test = (a as u64 * b as u64 % P as u64) as u32;
        assert_eq!(prod, test);
    }
}

#[test]
fn inv() {
    let mut st = 2u64;
    for _ in 0..1 << 15 {
        let a = 1 + lcg(&mut st) % (P - 1);
        let v = M::new(a);
        let inv_v = v.inv().unwrap();

        assert_eq!(v.mul(inv_v).get(), 1);
    }
}

#[test]
fn plantard_new_get_roundtrip() {
    for x in [0u32, 1, 2, 12345, P - 1, P, P + 1, u32::MAX] {
        assert_eq!(M::new(x).get(), x % P);
    }
}

#[test]
fn plantard_inv_of_zero_is_none() {
    assert_eq!(M::new(0).inv(), None);
    assert_eq!(M::new(P).inv(), None);
}

#[test]
fn plantard_add_sub() {
    assert_eq!(M::new(P - 1).add(M::new(5)).get(), 4);
    assert_eq!(M::new(3).sub(M::new(5)).get(), P - 2);
    assert_eq!(M::new(7).add(M::new(0)).get(), 7);
    assert_eq!(M::new(0).sub(M::new(0)).get(), 0);
    let mut st = 3u64;
    for _ in 0..1024 {
        let a = lcg(&mut st) % P;
        let b = lcg(&mut st) % P;
        assert_eq!(M::new(a).add(M::new(b)).get(), ((a as u64 + b as u64) % P as u64) as u32);
        assert_eq!(M::new(a).sub(M::new(b)).get(), ((a as u64 + P as u64 - b as u64) % P as u64) as u32);
        assert_eq!(M::new(a).add(M::new(b)).sub(M::new(b)), M::new(a));
    }
}

#[test]
fn plantard_pow() {
    assert_eq!(M::new(2).pow(10).get(), 1024);
    assert_eq!(M::new(5).pow(0).get(), 1);
    assert_eq!(M::new(0).pow(0).get(), 1);
    assert_eq!(M::new(0).pow(3).get(), 0);
    // Fermat: 3^(P-1) = 1
    assert_eq!(M::new(3).pow(P - 1).get(), 1);
    // 3 is a quadratic non-residue
    assert_eq!(M::new(3).pow((P - 1) / 2).get(), P - 1);
    let mut st = 4u64;
    for _ in 0..256 {
        let a = lcg(&mut st) % P;
        let e = lcg(&mut st) % 64;
        let mut expected = 1u64;
        for _ in 0..e {
            expected = expected * a as u64 % P as u64;
        }
        assert_eq!(M::new(a).pow(e).get(), expected as u32);
    }
}

#[test]
fn plantard_small_modulus() {
    type S = Mint<7>;
    for a in 0..7u32 {
        for b in 0..7u32 {
            assert_eq!(S::new(a).mul(S::new(b)).get(), a * b % 7);
            assert_eq!(S::new(a).add(S::new(b)).get(), (a + b) % 7);
            assert_eq!(S::new(a).sub(S::new(b)).get(), (a + 7 - b) % 7);
        }
        match S::new(a).inv() {
            Some(v) => assert_eq!(S::new(a).mul(v).get(), 1),
            None => assert_eq!(a, 0),
        }
    }
}
