use polynomial::prime::{PRIME_22, PRIME_23, PRIME_24, PRIME_25, PRIME_26, PRIME_27, PRIME_28, PRIME_30};
use polynomial::{NTTFriendlyPrime, Prime};

fn is_prime(p: u32) -> bool {
    if p < 2 {
        return false;
    }
    let mut d = 2u64;
    while d * d <= p as u64 {
        if p as u64 % d == 0 {
            return false;
        }
        d += 1;
    }
    true
}

fn assert_family(primes: &[u32], d: u32) {
    for &p in primes {
        assert!(is_prime(p), "{} is prime", p);
        assert_eq!((p - 1).trailing_zeros(), d, "{} has the form a * 2^{} + 1 with a odd", p, d);
    }
}

#[test]
fn prime_tables() {
    assert_family(&PRIME_22, 22);
    assert_family(&PRIME_23, 23);
    assert_family(&PRIME_24, 24);
    assert_family(&PRIME_25, 25);
    assert_family(&PRIME_26, 26);
    assert_family(&PRIME_27, 27);
    assert_family(&[PRIME_28], 28);
    assert_family(&[PRIME_30], 30);
    assert!(PRIME_23.contains(&998_244_353));
}

#[test]
fn prime_998244353_constants() {
    type P = Prime<998_244_353>;
    assert_eq!(<P as NTTFriendlyPrime>::PRIMITIVE_ROOT, 3);
    assert_eq!(<P as NTTFriendlyPrime>::D, 23);
    assert_eq!(<P as NTTFriendlyPrime>::A, 119);
    assert_eq!((<P as NTTFriendlyPrime>::A << <P as NTTFriendlyPrime>::D) + 1, 998_244_353);
}
