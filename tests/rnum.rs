use rnmat::rnum::RNum;

#[test]
fn rnum_test_eq() {
    assert_eq!(RNum::new(1, 2), RNum::new(-1, -2));
    assert_eq!(RNum::new(0, 1), RNum::new(0, 3));
    assert_eq!(RNum::new(4, 2), RNum::new(2, 1));
}

#[test]
fn test_negative() {
    assert_eq!(true, RNum::new(1, -2).is_negative());
    assert_eq!(false, RNum::new(1, 2).is_negative());
    assert_eq!(true, RNum::new(-1, 2).is_negative());
    assert_eq!(false, RNum::new(-1, -2).is_negative());
}

#[test]
fn test_zero() {
    assert_eq!(true, RNum::new(0, 100).is_zero());
    assert_eq!(false, RNum::new(1, 2).is_zero());
}

#[test]
fn test_safe_make() {
    assert_eq!(None, RNum::safe_make(0, 0));
    let r = RNum::safe_make(1, 2).unwrap();
    assert_eq!(false, r.is_negative());
    assert_eq!(1, r.numerator());
    assert_eq!(2, r.denominator());
    assert_eq!(Some(RNum::new(1, 2)), RNum::safe_make(1, 2));
}

#[test]
fn test_add() {
    assert_eq!(RNum::new(1, 2), RNum::new(1, 4) + RNum::new(1, 4));
    assert_eq!(RNum::new(0, 2), RNum::new(1, 2) + RNum::new(1, -2));
}

#[test]
fn test_sub() {
    assert_eq!(RNum::new(1, 2), RNum::new(1, 4) - RNum::new(-1, 4));
    assert_eq!(RNum::new(0, 2), RNum::new(1, 2) - RNum::new(1, 2));
}

#[test]
fn test_mul() {
    assert_eq!(RNum::new(1, 4), RNum::new(1, 2) * RNum::new(1, 2));
    assert_eq!(RNum::new(3, 8), RNum::new(1, 2) * RNum::new(3, 4));
    assert_eq!(RNum::new(-1, 4), RNum::new(1, -2) * RNum::new(1, 2));
    assert_eq!(RNum::zero(), RNum::new(0, 10) * RNum::new(1, 2));
}

#[test]
fn test_div() {
    assert_eq!(RNum::new(1, 1), RNum::new(1, 2) / RNum::new(1, 2));
    assert_eq!(RNum::new(-1, 1), RNum::new(1, -2) / RNum::new(1, 2));
    assert_eq!(RNum::zero(), RNum::new(0, 10) / RNum::new(1, 2));
}

#[test]
fn test_neg() {
    assert_eq!(RNum::new(0, 1), -RNum::new(0, 1));
    assert_eq!(RNum::new(1, 2), -RNum::new(-1, 2));
}

#[test]
fn construct_reduces_and_places_sign() {
    let r = RNum::new(-6, 4);
    assert!(r.is_negative());
    assert_eq!(3, r.numerator());
    assert_eq!(2, r.denominator());
    let z = RNum::new(0, -7);
    assert!(!z.is_negative());
    assert!(!z.is_positive());
    assert_eq!(0, z.numerator());
    assert_eq!(1, z.denominator());
    assert!(RNum::new(-3, -9).is_positive());
    assert_eq!(3, RNum::new(-3, -9).denominator());
}

#[test]
fn construct_extremes() {
    let r = RNum::new(i32::MIN, 1);
    assert!(r.is_negative());
    assert_eq!(2147483648, r.numerator());
    let s = RNum::new(1, i32::MIN);
    assert!(s.is_negative());
    assert_eq!(2147483648, s.denominator());
    assert_eq!(RNum::new(1, 1), RNum::new(i32::MIN, i32::MIN));
}

#[test]
fn sign_cancels_on_samples() {
    for n in -12..=12 {
        for d in -12..=12 {
            if d != 0 {
                assert_eq!(RNum::new(n, d), RNum::new(-n, -d));
            }
        }
    }
}

#[test]
fn zero_is_canonical_for_every_denominator() {
    for d in [-100, -3, -1, 1, 2, 99] {
        assert_eq!(RNum::new(0, 1), RNum::new(0, d));
        assert_eq!(RNum::zero(), RNum::new(0, d));
    }
}

#[test]
fn constructed_values_are_in_lowest_terms() {
    for n in -20..=20 {
        for d in -20..=20 {
            if d != 0 {
                let r = RNum::new(n, d);
                assert!(r.numerator() == 0 || rnmat::utils::gcd(r.numerator(), r.denominator()) == 1);
                if r.numerator() == 0 {
                    assert_eq!(1, r.denominator());
                }
            }
        }
    }
}

fn samples() -> Vec<RNum> {
    let mut v = Vec::new();
    for n in [-20, -7, -1, 0, 1, 3, 20] {
        for d in [-20, -3, 1, 2, 20] {
            v.push(RNum::new(n, d));
        }
    }
    v
}

#[test]
fn arithmetic_identities_on_samples() {
    for a in samples() {
        assert_eq!(a, a + RNum::zero());
        assert_eq!(RNum::zero(), a * RNum::zero());
        assert_eq!(RNum::zero(), a - a);
        assert_eq!(a, -(-a));
        if !a.is_zero() {
            assert_eq!(RNum::new(1, 1), a / a);
        }
    }
}

#[test]
fn commutative_and_associative_on_samples() {
    let s = samples();
    for a in &s {
        for b in &s {
            assert_eq!(*a + *b, *b + *a);
            assert_eq!(*a * *b, *b * *a);
            for c in s.iter().step_by(3) {
                assert_eq!((*a + *b) + *c, *a + (*b + *c));
                assert_eq!((*a * *b) * *c, *a * (*b * *c));
            }
        }
    }
}

#[test]
fn mixed_sign_sums() {
    assert_eq!(RNum::new(-1, 4), RNum::new(1, 4) + RNum::new(-1, 2));
    assert_eq!(RNum::new(-1, 1), RNum::new(-1, 2) + RNum::new(-1, 2));
    assert_eq!(RNum::new(5, 6), RNum::new(1, 2) - RNum::new(-1, 3));
    assert_eq!(RNum::new(-5, 6), RNum::new(-1, 2) - RNum::new(1, 3));
    assert_eq!(RNum::new(1, 6), RNum::new(-1, 3) - RNum::new(-1, 2));
}

#[test]
fn division_signs() {
    assert_eq!(RNum::new(-3, 2), RNum::new(3, 4) / RNum::new(-1, 2));
    assert_eq!(RNum::new(3, 2), RNum::new(-3, 4) / RNum::new(-1, 2));
}

#[test]
fn wide_intermediates_reduce_exactly() {
    // the raw products exceed u32, the reduced results do not
    assert_eq!(RNum::new(1, 1), RNum::new(65536, 65537) * RNum::new(65537, 65536));
    assert_eq!(RNum::new(1, 1), RNum::new(65536, 65537) / RNum::new(65536, 65537));
    let big = RNum::new(i32::MAX, 1) + RNum::new(i32::MAX, 1);
    assert_eq!(4294967294, big.numerator());
    assert_eq!(1, big.denominator());
    let tiny = RNum::new(1, 65536) * RNum::new(1, 65535);
    assert_eq!(4294901760, tiny.denominator());
}

#[test]
fn predicates_on_zero() {
    let z = RNum::zero();
    assert!(z.is_zero());
    assert!(!z.is_negative());
    assert!(!z.is_positive());
    assert_eq!(z, -z);
}
