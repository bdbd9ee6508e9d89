use rock::decimal::{Comparison, Decimal};

#[test]
fn decimals_compare_by_value() {
    let a = Decimal::new(15, 1);
    let b = Decimal::new(2, 0);
    assert_eq!(a.compare(&b), Comparison::Less);
    assert_eq!(b.compare(&a), Comparison::Greater);
    assert_eq!(Decimal::new(100, 2).compare(&Decimal::new(1, 0)), Comparison::Equal);
    assert_eq!(Decimal::new(-3, 0).compare(&Decimal::new(1, 5)), Comparison::Less);
}

#[test]
fn decimals_equal_by_value() {
    assert_eq!(Decimal::new(10, 0), Decimal::new(1000, 2));
    assert_ne!(Decimal::new(10, 0), Decimal::new(1001, 2));
}

#[test]
fn decimals_parse_from_text() {
    let d = Decimal::from_str("0.00012300").unwrap();
    assert_eq!(d.mantissa(), 12300);
    assert_eq!(d.scale(), 8);
    let n = Decimal::from_str("-42").unwrap();
    assert_eq!(n.mantissa(), -42);
    assert_eq!(n.scale(), 0);
    assert!(Decimal::from_str("abc").is_none());
    assert!(Decimal::from_str("").is_none());
}

#[test]
fn decimals_subtract() {
    let d = Decimal::new(1105, 2).checked_sub(&Decimal::new(10, 0)).unwrap();
    assert_eq!(d, Decimal::new(105, 2));
    assert_eq!(d.mantissa(), 105);
    let max = Decimal::from_i128_with_scale(0xFFFF_FFFF_FFFF_FFFF_FFFF_FFFF, 0);
    let min = Decimal::from_i128_with_scale(-0xFFFF_FFFF_FFFF_FFFF_FFFF_FFFF, 0);
    assert!(max.checked_sub(&min).is_none());
}
