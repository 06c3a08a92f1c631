use compa_decimal::valid_str;

#[test]
fn valid_str_test() {
    assert!(valid_str("abc"));
    assert!(valid_str("ABC"));
    assert!(valid_str("123"));
    assert!(!valid_str("£"));
    assert!(!valid_str("¬"));
    assert!(!valid_str("カタカナ"));
    assert!(!valid_str("片"));
}
