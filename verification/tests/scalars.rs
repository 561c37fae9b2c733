use apt_expr::scalar::{Scalar, SCALE};

#[test]
fn arithmetic_on_micros() {
    let a = Scalar::new(1_500_000);
    let b = Scalar::new(500_000);
    assert_eq!(a.add(&b), Scalar::new(2_000_000));
    assert_eq!(a.sub(&b), Scalar::new(1_000_000));
    assert_eq!(a.mul(&b), Scalar::new(750_000));
    assert_eq!(a.div(&b), Scalar::new(3_000_000));
}

#[test]
fn multiplication_truncates_toward_zero() {
    let a = Scalar::new(-1_500_000);
    let b = Scalar::new(333_333);
    assert_eq!(a.mul(&b), Scalar::new(-499_999));
    assert_eq!(Scalar::new(1).mul(&Scalar::new(1)), Scalar::new(0));
}

#[test]
fn addition_saturates() {
    let a = Scalar::new(i64::MAX);
    assert_eq!(a.add(&Scalar::new(1)), Scalar::new(i64::MAX));
    let b = Scalar::new(i64::MIN);
    assert_eq!(b.sub(&Scalar::new(1)), Scalar::new(i64::MIN));
}

#[test]
fn division_by_zero_saturates() {
    assert_eq!(Scalar::new(5).div(&Scalar::zero()), Scalar::new(i64::MAX));
    assert_eq!(Scalar::new(-5).div(&Scalar::zero()), Scalar::new(i64::MIN));
    assert_eq!(Scalar::zero().div(&Scalar::zero()), Scalar::zero());
}

#[test]
fn canonical_text() {
    assert_eq!(Scalar::new(2_000_000).to_text(), "2.0");
    assert_eq!(Scalar::new(-12_340_000).to_text(), "-12.34");
    assert_eq!(Scalar::new(500_000).to_text(), "0.5");
    assert_eq!(Scalar::new(0).to_text(), "0.0");
    assert_eq!(Scalar::new(-1).to_text(), "-0.000001");
}

#[test]
fn parse_decimal_forms() {
    assert_eq!(Scalar::from_text("2.0"), Some(Scalar::new(2_000_000)));
    assert_eq!(Scalar::from_text("-12.34"), Some(Scalar::new(-12_340_000)));
    assert_eq!(Scalar::from_text("-1"), Some(Scalar::new(-1_000_000)));
    assert_eq!(Scalar::from_text(".5"), Some(Scalar::new(500_000)));
    assert_eq!(Scalar::from_text("5."), Some(Scalar::new(5_000_000)));
    assert_eq!(Scalar::from_text("0.0000019"), Some(Scalar::new(1)));
}

#[test]
fn parse_rejects_malformed_text() {
    assert_eq!(Scalar::from_text(""), None);
    assert_eq!(Scalar::from_text("-"), None);
    assert_eq!(Scalar::from_text("."), None);
    assert_eq!(Scalar::from_text("-."), None);
    assert_eq!(Scalar::from_text("1x"), None);
    assert_eq!(Scalar::from_text("--1"), None);
}

#[test]
fn parse_saturates_huge_values() {
    assert_eq!(Scalar::from_text("99999999999999999999"), Some(Scalar::new(i64::MAX)));
    assert_eq!(Scalar::from_text("-99999999999999999999"), Some(Scalar::new(i64::MIN)));
}

#[test]
fn text_round_trips() {
    for m in [
        0i64,
        1,
        -1,
        2_000_000,
        -12_340_000,
        500_000,
        SCALE,
        -SCALE,
        i64::MAX,
        i64::MIN,
        123_456_789,
    ] {
        let s = Scalar::new(m);
        assert_eq!(Scalar::from_text(&s.to_text()), Some(s));
    }
}
