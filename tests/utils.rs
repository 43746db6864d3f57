use rnmat::utils::{gcd, get_reduced_pair};

#[test]
fn test_gcd() {
    // corner case
    assert_eq!(1, gcd(1, 1));
    assert_eq!(1, gcd(2, 1));
    assert_eq!(2, gcd(2, 0));
    // normal
    assert_eq!(2, gcd(10, 2));
    assert_eq!(1, gcd(17, 23));
    // a < b
    assert_eq!(gcd(9, 3), gcd(3, 9));
}

#[test]
fn gcd_of_zero_and_larger_values() {
    assert_eq!(0, gcd(0, 0));
    assert_eq!(7, gcd(0, 7));
    assert_eq!(6, gcd(48, 18));
    assert_eq!(6, gcd(18, 48));
    assert_eq!(u32::MAX, gcd(u32::MAX, u32::MAX));
    assert_eq!(1, gcd(u32::MAX, u32::MAX - 1));
}

#[test]
fn reduced_pair_divides_by_gcd() {
    assert_eq!((2, 3), get_reduced_pair(4, 6));
    assert_eq!((0, 1), get_reduced_pair(0, 5));
    assert_eq!((1, 0), get_reduced_pair(9, 0));
    assert_eq!((17, 23), get_reduced_pair(17, 23));
}
