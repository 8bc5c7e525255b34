use polynomial::montgomery::Mint;

const P: u32 = 998_244_353;
type M = Mint<P>;

fn lcg(state: &mut u64) -> u32 {
    *state = state.wrapping_mul(6364136223846793005).wrapping_add(1442695040888963407);
    (*state >> 33) as u32
}

#[test]
fn montgomery_mul() {
    let mut st = 11u64;
    for _ in 0..1 << 15 {
        let a = 1 + lcg(&mut st) % (P - 1);
        let b = 1 + lcg(&mut st) % (P - 1);
        let prod = M::new(a).mul(M::new(b)).get();
        let test = (a as u64 * b as u64 % P as u64) as u32;
        assert_eq!(prod, test);
    }
}

#[test]
fn montgomery_inv() {
    let mut st = 12u64;
    for _ in 0..1 << 15 {
        let a = 1 + lcg(&mut st) % (P - 1);
        let v = M::new(a);
        let inv_v = v.inv().unwrap();

        assert_eq!(v.mul(inv_v).get(), 1);
    }
}

#[test]
fn montgomery_roundtrip_and_zero() {
    for x in [0u32, 1, 2, 12345, P - 1, P, P + 1, u32::MAX] {
        assert_eq!(M::new(x).get(), x % P);
    }
    assert_eq!(M::new(0).inv(), None);
}

#[test]
fn montgomery_add_sub_pow() {
    assert_eq!(M::new(P - 1).add(M::new(5)).get(), 4);
    assert_eq!(M::new(3).sub(M::new(5)).get(), P - 2);
    assert_eq!(M::new(2).pow(31).get(), (1u64 << 31) as u32 % P);
    assert_eq!(M::new(3).pow(P - 1).get(), 1);
}

#[test]
fn montgomery_large_modulus() {
    // Montgomery arithmetic accepts odd moduli beyond 2^31.
    const Q: u32 = 4_294_967_291;
    type L = Mint<Q>;
    let mut st = 13u64;
    for _ in 0..1024 {
        let a = lcg(&mut st).wrapping_mul(3) % Q;
        let b = lcg(&mut st).wrapping_mul(5) % Q;
        assert_eq!(L::new(a).mul(L::new(b)).get(), (a as u64 * b as u64 % Q as u64) as u32);
        assert_eq!(L::new(a).add(L::new(b)).get(), ((a as u64 + b as u64) % Q as u64) as u32);
    }
}

#[test]
fn montgomery_add_zero_and_range() {
    let mut st = 13u64;
    for _ in 0..1024 {
        let x = M::new(lcg(&mut st) ^ (lcg(&mut st) << 16));
        assert_eq!(x.add(M::new(0)), x);
        assert!(x.get() < P);
        M::lemma_view_injective(&x.add(M::new(0)), &x);
    }
}
