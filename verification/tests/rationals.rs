use queuing::errors::Error;
use queuing::rational::Rational;

#[test]
fn construction_normalizes() {
    assert_eq!(Rational::new(2, 4), Rational::new(1, 2));
    assert_eq!(Rational::new(-6, 4), Rational::new(-3, 2));
    assert_eq!(Rational::new(0, 7), Rational::zero());
    assert_eq!(Rational::from_int(5), Rational::new(5, 1));
    let r = Rational::new(30, 12);
    assert_eq!(r.num, 5);
    assert_eq!(r.den, 2);
}

#[test]
fn exact_arithmetic() {
    let half = Rational::new(1, 2);
    let third = Rational::new(1, 3);
    assert_eq!(half.add(&third).unwrap(), Rational::new(5, 6));
    assert_eq!(half.sub(&third).unwrap(), Rational::new(1, 6));
    assert_eq!(half.mul(&third).unwrap(), Rational::new(1, 6));
    assert_eq!(half.div(&third).unwrap(), Rational::new(3, 2));
    assert_eq!(half.neg(), Rational::new(-1, 2));
    assert_eq!(half.add(&half.neg()).unwrap(), Rational::zero());
}

#[test]
fn comparisons() {
    let a = Rational::new(2, 3);
    let b = Rational::new(3, 4);
    assert!(a.lt(&b));
    assert!(!b.lt(&a));
    assert!(a.le(&a));
    assert!(a.is_pos());
    assert!(!a.neg().is_pos());
    assert!(a.is_nonneg());
    assert!(Rational::zero().is_zero());
    assert!(!a.is_zero());
}

#[test]
fn overflow_reporting_is_exact() {
    let big = Rational::new(0x2000_0000_0000_0000, 1);
    // 2^61 + 2^61 = 2^62 does not fit below the representation bound
    assert_eq!(big.add(&big), Err(Error::Overflow));
    // but 2^61 * 2 / 2 stays representable through cancellation
    let two = Rational::from_int(2);
    assert_eq!(big.div(&two).unwrap(), Rational::new(0x1000_0000_0000_0000, 1));
    // cancellation keeps products representable when the exact value fits
    let a = Rational::new(0x2000_0000_0000_0000, 3);
    let b = Rational::new(3, 0x2000_0000_0000_0000);
    assert_eq!(a.mul(&b).unwrap(), Rational::from_int(1));
}
