use code20::decimal::{limbs_to_decimal, limbs_to_string};

#[test]
fn decimal_digits_of_limbs() {
    assert_eq!(limbs_to_decimal(&[]), vec![0]);
    assert_eq!(limbs_to_decimal(&[0, 0]), vec![0]);
    assert_eq!(limbs_to_decimal(&[10]), vec![1, 0]);
    assert_eq!(limbs_to_string(&[0, 1]), "18446744073709551616");
    assert_eq!(limbs_to_string(&[123, 0, 0]), "123");
    assert_eq!(limbs_to_string(&[u64::MAX]), "18446744073709551615");
}
