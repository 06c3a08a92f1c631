use compa_decimal::{limbs_to_compa, CompaDecimal, CompaErrorKind};
use std::cmp::Ordering;

#[test]
fn round_trip_all_widths() {
    let v = CompaDecimal::decimal_to_compa::<u8>(200).unwrap();
    assert_eq!(v.to_decimal::<u8>().unwrap(), 200);
    let v = CompaDecimal::decimal_to_compa::<u16>(65535).unwrap();
    assert_eq!(v.to_decimal::<u16>().unwrap(), 65535);
    let v = CompaDecimal::decimal_to_compa::<u32>(123456789).unwrap();
    assert_eq!(v, "1WZ29");
    assert_eq!(v.to_decimal::<u32>().unwrap(), 123456789);
    let v = CompaDecimal::decimal_to_compa::<u64>(u64::MAX).unwrap();
    assert_eq!(v.to_decimal::<u64>().unwrap(), u64::MAX);
    let v = CompaDecimal::decimal_to_compa::<u128>(u128::MAX).unwrap();
    assert_eq!(v.to_decimal::<u128>().unwrap(), u128::MAX);
    let v = CompaDecimal::decimal_to_compa::<u32>(0).unwrap();
    assert_eq!(v, "0");
    assert_eq!(v.to_decimal::<u32>().unwrap(), 0);
}

#[test]
fn successor_predecessor_inverse() {
    for s in ["Az", "1~", "~", "0", "zz9", "1000"] {
        let v: CompaDecimal = s.parse().unwrap();
        let back = v.plus_one().unwrap().minus_one().unwrap();
        assert_eq!(back, s);
    }
}

#[test]
fn add_zero_identity() {
    for s in ["abc", "1", "0", "~~~"] {
        let v: CompaDecimal = s.parse().unwrap();
        assert_eq!(v.add("0").unwrap(), s);
    }
}

#[test]
fn add_subtract_inverse() {
    for (v, k) in [("abc", "zz"), ("1", "~~~"), ("0", "5"), ("~~", "~~")] {
        let v: CompaDecimal = v.parse().unwrap();
        let expected = v.get_value().to_string();
        let back = v.add(k).unwrap().subtract(k).unwrap();
        assert_eq!(back, expected.as_str());
    }
}

#[test]
fn compare_agrees_with_to_decimal() {
    let pairs = [("Cb", "LwOa"), ("1WZ29", "Cb"), ("D", "D"), ("2&", "2'")];
    for (a, b) in pairs {
        let va: CompaDecimal = a.parse().unwrap();
        let vb: CompaDecimal = b.parse().unwrap();
        let na = va.to_decimal::<u64>().unwrap();
        let nb = vb.to_decimal::<u64>().unwrap();
        assert_eq!(va.cmp_str(b).unwrap(), na.cmp(&nb));
        assert_eq!(va < vb, na < nb);
        assert_eq!(va == vb, na == nb);
    }
}

#[test]
fn zero_predecessor_underflows() {
    let zero = CompaDecimal::new();
    let err = zero.minus_one().unwrap_err();
    assert!(matches!(err.kind, CompaErrorKind::Underflow));

    // a padded zero is still the zero value
    let padded: CompaDecimal = "000".parse().unwrap();
    let err = padded.minus_one().unwrap_err();
    assert!(matches!(err.kind, CompaErrorKind::Underflow));
}

#[test]
fn successor_of_all_max_grows_by_one_digit() {
    for (s, expected) in [("~", "10"), ("~~", "100"), ("~~~", "1000")] {
        let v: CompaDecimal = s.parse().unwrap();
        let next = v.plus_one().unwrap();
        assert_eq!(next, expected);
        assert_eq!(next.len(), v.len() + 1);
    }
}

#[test]
fn parse_rejects_empty_and_invalid() {
    let err = CompaDecimal::parse("").unwrap_err();
    assert!(matches!(err.kind, CompaErrorKind::InvalidDigit));
    let err = CompaDecimal::parse("12 3").unwrap_err();
    assert!(matches!(err.kind, CompaErrorKind::InvalidDigit));
    assert!(CompaDecimal::parse("}{~").is_ok());
}

#[test]
fn parse_keeps_leading_zeros() {
    let v: CompaDecimal = "007".parse().unwrap();
    assert_eq!(v.get_value(), "007");
    assert_eq!(v.len(), 3);
    assert_eq!(v.to_decimal::<u32>().unwrap(), 7);
}

#[test]
fn operations_canonicalize_results() {
    let v: CompaDecimal = "008".parse().unwrap();
    assert_eq!(v.minus_one().unwrap(), "7");

    let v: CompaDecimal = "100".parse().unwrap();
    assert_eq!(v.subtract("~~").unwrap(), "1");
}

#[test]
fn to_decimal_overflow_boundary() {
    let v: CompaDecimal = "2&".parse().unwrap();
    assert_eq!(v.to_decimal::<u8>().unwrap(), 255);

    let v: CompaDecimal = "2'".parse().unwrap();
    let err = v.to_decimal::<u8>().unwrap_err();
    assert!(matches!(err.kind, CompaErrorKind::Overflow));
    assert_eq!(v.to_decimal::<u16>().unwrap(), 256);

    let v: CompaDecimal = "zz".parse().unwrap();
    let err = v.to_decimal::<u8>().unwrap_err();
    assert!(matches!(err.kind, CompaErrorKind::Overflow));
}

#[test]
fn subtract_negative_result_kind() {
    let v: CompaDecimal = "1".parse().unwrap();
    let err = v.subtract("2").unwrap_err();
    assert!(matches!(err.kind, CompaErrorKind::NegativeResult));

    let err = v.decrease_by::<u8>(2).unwrap_err();
    assert!(matches!(err.kind, CompaErrorKind::NegativeResult));
}

#[test]
fn arithmetic_rejects_invalid_digits() {
    let v: CompaDecimal = "1".parse().unwrap();
    assert!(matches!(
        v.add("é").unwrap_err().kind,
        CompaErrorKind::InvalidDigit
    ));
    assert!(matches!(
        v.subtract("é").unwrap_err().kind,
        CompaErrorKind::InvalidDigit
    ));
    assert!(matches!(
        v.cmp_str("é").unwrap_err().kind,
        CompaErrorKind::InvalidDigit
    ));
}

#[test]
fn rendering_matches_digits() {
    let v = CompaDecimal::decimal_to_compa::<u8>(16).unwrap();
    assert_eq!(v.get_value(), "D");
    let v = CompaDecimal::decimal_to_compa::<u32>(1329).unwrap();
    assert_eq!(v.get_value(), "Cb");
}

#[test]
fn default_and_clone() {
    let zero = CompaDecimal::default();
    assert_eq!(zero, "0");
    let v: CompaDecimal = "Cb".parse().unwrap();
    let w = v.clone();
    assert_eq!(w, "Cb");
    assert_eq!(v, w);
}

#[test]
fn ordering_is_by_digit_value_not_char_order() {
    // 'a' (value 11) comes before 'B' (value 12) in the alphabet, while
    // the raw character order puts 'B' first.
    let a: CompaDecimal = "a".parse().unwrap();
    let b: CompaDecimal = "B".parse().unwrap();
    assert!(a < b);
    assert_eq!(a.cmp_str("B").unwrap(), Ordering::Less);
}

#[test]
fn limbs_conversion_matches_fixed_width() {
    assert_eq!(limbs_to_compa(vec![]), "0");
    assert_eq!(limbs_to_compa(vec![0, 0]), "0");
    assert_eq!(limbs_to_compa(vec![27068251]), "LwOa");

    let n: u64 = (1329u64 << 32) + 27068251;
    let via_limbs = limbs_to_compa(vec![27068251, 1329]);
    let via_u64 = CompaDecimal::decimal_to_compa::<u64>(n).unwrap();
    assert_eq!(via_limbs, via_u64);
    assert_eq!(via_limbs, "8h*,rJ^");

    let max128 = limbs_to_compa(vec![u32::MAX, u32::MAX, u32::MAX, u32::MAX]);
    assert_eq!(max128, "a2o~TWI*I+5G('\\99=ab");
    assert_eq!(max128.to_decimal::<u128>().unwrap(), u128::MAX);
}
