use bsptess::frac::{Frac, FRAC_BOUND};

fn fr(num: i64, den: i64) -> Frac {
    Frac::new(num, den).unwrap()
}

/// Two stored fractions denote the same rational.
fn same_value(a: Frac, b: Frac) -> bool {
    (a.num as i128) * (b.den as i128) == (b.num as i128) * (a.den as i128)
}

#[test]
fn add_is_exact() {
    let r = fr(1, 2).checked_add(&fr(1, 3)).unwrap();
    assert_eq!(r.num, 5);
    assert_eq!(r.den, 6);
}

#[test]
fn sub_is_exact() {
    let r = fr(1, 2).checked_sub(&fr(1, 3)).unwrap();
    assert_eq!(r.num, 1);
    assert_eq!(r.den, 6);
}

#[test]
fn mul_is_exact_and_reduced() {
    let r = fr(1, 2).checked_mul(&fr(2, 3)).unwrap();
    assert_eq!(r.num, 1);
    assert_eq!(r.den, 3);
    assert!(same_value(r, fr(1, 3)));
}

#[test]
fn div_moves_sign_into_numerator() {
    let r = fr(1, 2).checked_div(&fr(-1, 3)).unwrap();
    assert_eq!(r.num, -3);
    assert_eq!(r.den, 2);
}

#[test]
fn le_zero_follows_numerator() {
    assert!(fr(0, 7).le_zero());
    assert!(fr(-3, 5).le_zero());
    assert!(!fr(1, 9).le_zero());
}

#[test]
fn new_rejects_out_of_bounds() {
    assert!(Frac::new(i64::MAX, 1).is_none());
    assert!(Frac::new(1, 0).is_none());
    assert!(Frac::new(1, -2).is_none());
    assert!(Frac::new(FRAC_BOUND, 1).is_none());
    assert!(Frac::new(FRAC_BOUND - 1, 1).is_some());
}

#[test]
fn ops_report_overflow() {
    let big = fr(FRAC_BOUND - 1, 1);
    assert!(big.checked_mul(&big).is_none());
    assert!(big.checked_add(&big).is_none());
    // a denominator product out of bounds also fails
    let thin = fr(1, FRAC_BOUND - 1);
    assert!(thin.checked_mul(&thin).is_none());
}

#[test]
fn from_int_is_the_integer() {
    let r = Frac::from_int(-7);
    assert_eq!(r.num, -7);
    assert_eq!(r.den, 1);
}
