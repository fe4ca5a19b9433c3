use math::bignum::{BigInt, BigNat};

fn big(s: &str) -> BigNat {
    let mut x = BigNat::zero();
    let ten = BigNat::from_u64(10);
    for c in s.chars() {
        x = x.mul(&ten).add(&BigNat::from_u64(c.to_digit(10).unwrap() as u64));
    }
    x
}

#[test]
fn bignum_decimal_round_trip() {
    let s = "123456789012345678901234567890123456789";
    assert_eq!(big(s).to_decimal(), s);
    assert_eq!(BigNat::zero().to_decimal(), "0");
    assert_eq!(BigNat::from_u64(u64::MAX).to_decimal(), "18446744073709551615");
}

#[test]
fn bignum_add_mul_sub() {
    let a = big("99999999999999999999");
    let b = BigNat::from_u64(1);
    assert_eq!(a.add(&b).to_decimal(), "100000000000000000000");
    assert_eq!(a.mul(&a).to_decimal(), "9999999999999999999800000000000000000001");
    assert_eq!(a.add(&b).sub(&b).to_decimal(), "99999999999999999999");
    assert_eq!(a.sub(&a).to_decimal(), "0");
}

#[test]
fn bignum_divmod() {
    let n = big("1000000000000000000000000000007");
    let m = big("12345678901");
    let (q, r) = n.divmod(&m);
    assert_eq!(q.mul(&m).add(&r).to_decimal(), n.to_decimal());
    assert!(r.lt(&m));
    let (q2, r2) = BigNat::from_u64(17).divmod_small(5);
    assert_eq!((q2.to_u64(), r2), (3, 2));
}

#[test]
fn bignum_compare_and_bits() {
    assert!(BigNat::from_u64(3).lt(&BigNat::from_u64(4)));
    assert!(!BigNat::from_u64(4).lt(&BigNat::from_u64(4)));
    assert!(BigNat::from_u64(4).equals(&big("4")));
    assert_eq!(BigNat::zero().bit_length(), 0);
    assert_eq!(BigNat::from_u64(1).bit_length(), 1);
    assert_eq!(BigNat::pow2(100).bit_length(), 101);
    assert_eq!(BigNat::pow(3, 4).to_decimal(), "81");
    assert_eq!(BigNat::pow(7, 0).to_decimal(), "1");
}

#[test]
fn bignum_isqrt() {
    assert_eq!(BigNat::zero().isqrt().to_decimal(), "0");
    assert_eq!(BigNat::from_u64(1).isqrt().to_decimal(), "1");
    assert_eq!(BigNat::from_u64(15).isqrt().to_decimal(), "3");
    assert_eq!(BigNat::from_u64(16).isqrt().to_decimal(), "4");
    assert_eq!(BigNat::from_u64(u64::MAX).isqrt().to_decimal(), "4294967295");
    assert_eq!(BigNat::pow(10, 40).isqrt().to_decimal(), "100000000000000000000");
    // sqrt(2) * 10^30 = 1414213562373095048801688724209.69...
    let two = BigNat::pow(10, 60).mul(&BigNat::from_u64(2));
    assert_eq!(two.isqrt().to_decimal(), "1414213562373095048801688724209");
}

#[test]
fn bignum_fixed_point() {
    let one = BigNat::from_u64(1);
    assert_eq!(one.to_fixed_point(&BigNat::from_u64(3), 5), "0.33333");
    assert_eq!(BigNat::from_u64(22).to_fixed_point(&BigNat::from_u64(7), 3), "3.142");
    assert_eq!(BigNat::from_u64(10).to_fixed_point(&BigNat::from_u64(4), 0), "2.");
    assert_eq!(BigNat::from_u64(1).to_fixed_point(&BigNat::from_u64(200), 4), "0.0050");
    assert_eq!(BigNat::from_u64(12345).to_fixed_point(&BigNat::from_u64(1), 2), "12345.00");
}

#[test]
fn bigint_signs() {
    let a = BigInt::from_nat(BigNat::from_u64(5));
    let b = BigInt::from_nat(BigNat::from_u64(8)).neg();
    let s = a.add(&b);
    assert!(s.is_negative());
    assert_eq!(s.magnitude().to_decimal(), "3");
    let p = b.mul_nat(&BigNat::from_u64(3));
    assert!(p.is_negative());
    assert_eq!(p.magnitude().to_decimal(), "24");
    let z = a.add(&BigInt::from_nat(BigNat::from_u64(5)).neg());
    assert!(!z.is_negative());
    assert_eq!(z.magnitude().to_decimal(), "0");
}
