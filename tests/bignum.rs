use bignum::{parse, parse_bytes, BigNumber, NumberError, DIVISION_DIGITS};
use std::cmp::Ordering;

fn num(s: &str) -> BigNumber {
    parse(s).unwrap()
}

fn text(s: &str) -> String {
    num(s).to_text()
}

#[test]
fn parse_signed_with_fraction() {
    let n = num("+123.456");
    assert_eq!(n.int, vec![1, 2, 3]);
    assert_eq!(n.frac, vec![4, 5, 6]);
    assert!(n.sign);
}

#[test]
fn parse_negative_with_trailing_zero() {
    let n = num("-0.50");
    assert_eq!(n.int, vec![0]);
    assert_eq!(n.frac, vec![5]);
    assert!(!n.sign);
}

#[test]
fn parse_without_sign_is_non_negative() {
    let n = num("42");
    assert_eq!(n.int, vec![4, 2]);
    assert!(n.frac.is_empty());
    assert!(n.sign);
}

#[test]
fn parse_strips_leading_zeros() {
    let n = num("000120.0300");
    assert_eq!(n.int, vec![1, 2, 0]);
    assert_eq!(n.frac, vec![0, 3]);
}

#[test]
fn parse_negative_zero_is_non_negative() {
    let n = num("-000.000");
    assert_eq!(n.int, vec![0]);
    assert!(n.frac.is_empty());
    assert!(n.sign);
}

#[test]
fn parse_rejects_empty() {
    assert_eq!(parse(""), Err(NumberError::MalformedNumber));
}

#[test]
fn parse_rejects_missing_integer_digits() {
    assert_eq!(parse("+.5"), Err(NumberError::MalformedNumber));
    assert_eq!(parse(".5"), Err(NumberError::MalformedNumber));
    assert_eq!(parse("-"), Err(NumberError::MalformedNumber));
}

#[test]
fn parse_rejects_point_without_digits() {
    assert_eq!(parse("1."), Err(NumberError::MalformedNumber));
    assert_eq!(parse("-12."), Err(NumberError::MalformedNumber));
}

#[test]
fn parse_rejects_stray_characters() {
    assert_eq!(parse("1a"), Err(NumberError::MalformedNumber));
    assert_eq!(parse("1.2.3"), Err(NumberError::MalformedNumber));
    assert_eq!(parse("--1"), Err(NumberError::MalformedNumber));
    assert_eq!(parse("1.5x"), Err(NumberError::MalformedNumber));
    assert_eq!(parse(" 1"), Err(NumberError::MalformedNumber));
}

#[test]
fn parse_bytes_reads_ascii() {
    let n = parse_bytes(b"-7.25").unwrap();
    assert_eq!(n.to_text(), "-7.25");
}

#[test]
fn format_always_has_sign() {
    assert_eq!(text("123.456"), "+123.456");
    assert_eq!(text("-3"), "-3");
}

#[test]
fn format_parse_canonicalises() {
    assert_eq!(text("+4.50"), "+4.5");
    assert_eq!(text("+4.0"), "+4");
    assert_eq!(text("007"), "+7");
    assert_eq!(text("-0.0"), "+0");
    assert_eq!(text("-0010.0100"), "-10.01");
}

#[test]
fn add_drops_trailing_zero_and_point() {
    assert_eq!(num("1.5").add(&num("2.5")).to_text(), "+4");
}

#[test]
fn add_carries_across_point() {
    assert_eq!(num("99.95").add(&num("0.05")).to_text(), "+100");
    assert_eq!(num("0.001").add(&num("999")).to_text(), "+999.001");
}

#[test]
fn add_mixed_signs() {
    assert_eq!(num("1").add(&num("-2.5")).to_text(), "-1.5");
    assert_eq!(num("-1").add(&num("2.5")).to_text(), "+1.5");
    assert_eq!(num("-1.25").add(&num("-0.75")).to_text(), "-2");
    assert_eq!(num("3.5").add(&num("-3.5")).to_text(), "+0");
}

#[test]
fn add_commutes_on_examples() {
    let pairs = [("1.5", "-2.25"), ("-999", "0.001"), ("0", "-7")];
    for (a, b) in pairs {
        assert_eq!(num(a).add(&num(b)), num(b).add(&num(a)));
    }
}

#[test]
fn add_zero_is_identity() {
    for a in ["-12.5", "0", "3", "0.0007"] {
        assert_eq!(num(a).add(&BigNumber::zero()), num(a));
    }
}

#[test]
fn subtract_examples() {
    assert_eq!(num("1").subtract(&num("2.5")).to_text(), "-1.5");
    assert_eq!(num("10.1").subtract(&num("0.1")).to_text(), "+10");
    assert_eq!(num("-3").subtract(&num("-5")).to_text(), "+2");
}

#[test]
fn subtract_self_is_zero() {
    for a in ["-12.5", "0", "3", "0.0007"] {
        let n = num(a);
        assert_eq!(n.subtract(&n), BigNumber::zero());
    }
}

#[test]
fn multiply_examples() {
    assert_eq!(num("123").multiply(&num("456")).to_text(), "+56088");
    assert_eq!(num("1.5").multiply(&num("-2.25")).to_text(), "-3.375");
    assert_eq!(num("-0.2").multiply(&num("-0.5")).to_text(), "+0.1");
    assert_eq!(num("999.9").multiply(&num("99")).to_text(), "+98990.1");
}

#[test]
fn multiply_commutes_on_examples() {
    let pairs = [("1.5", "-2.25"), ("-999", "0.001"), ("12.34", "56.7")];
    for (a, b) in pairs {
        assert_eq!(num(a).multiply(&num(b)), num(b).multiply(&num(a)));
    }
}

#[test]
fn multiply_by_zero_is_zero() {
    for a in ["-12.5", "0", "3", "0.0007"] {
        assert_eq!(num(a).multiply(&BigNumber::zero()), BigNumber::zero());
    }
}

#[test]
fn divide_by_zero_fails() {
    assert_eq!(num("1").divide(&num("0")), Err(NumberError::DivisionByZero));
    assert_eq!(num("0").divide(&num("-0.00")), Err(NumberError::DivisionByZero));
}

#[test]
fn divide_terminating() {
    assert_eq!(num("10").divide(&num("4")).unwrap().to_text(), "+2.5");
    assert_eq!(num("-7").divide(&num("2")).unwrap().to_text(), "-3.5");
    assert_eq!(num("1").divide(&num("-8")).unwrap().to_text(), "-0.125");
    assert_eq!(num("0.75").divide(&num("0.25")).unwrap().to_text(), "+3");
    assert_eq!(num("0").divide(&num("-3")).unwrap().to_text(), "+0");
}

#[test]
fn divide_truncates_repeating() {
    assert_eq!(DIVISION_DIGITS, 20);
    let third = num("1").divide(&num("3")).unwrap();
    assert_eq!(third.to_text(), "+0.33333333333333333333");
    let two_thirds = num("-2").divide(&num("3")).unwrap();
    assert_eq!(two_thirds.to_text(), "-0.66666666666666666666");
}

#[test]
fn divide_tiny_quotient_truncates_to_zero() {
    let q = num("1").divide(&num("1000000000000000000000")).unwrap();
    assert_eq!(q, BigNumber::zero());
}

#[test]
fn compare_examples() {
    assert_eq!(num("-1").compare(&num("0.5")), Ordering::Less);
    assert_eq!(num("2.50").compare(&num("2.5")), Ordering::Equal);
    assert_eq!(num("10").compare(&num("9.99")), Ordering::Greater);
    assert_eq!(num("-10").compare(&num("-9.99")), Ordering::Less);
    assert_eq!(num("0.01").compare(&num("0.001")), Ordering::Greater);
}

#[test]
fn compare_agrees_with_sign_of_difference() {
    let values = ["-10", "-9.99", "0", "0.001", "2.5", "100"];
    for a in values {
        for b in values {
            let d = num(a).subtract(&num(b));
            let sign = if d == BigNumber::zero() {
                Ordering::Equal
            } else if d.sign {
                Ordering::Greater
            } else {
                Ordering::Less
            };
            assert_eq!(num(a).compare(&num(b)), sign);
        }
    }
}

#[test]
fn normalize_canonicalises() {
    let n = BigNumber::normalize(vec![0, 0, 1], vec![2, 0, 0], false).unwrap();
    assert_eq!(n.to_text(), "-1.2");
    let z = BigNumber::normalize(vec![], vec![0], false).unwrap();
    assert_eq!(z, BigNumber::zero());
    let f = BigNumber::normalize(vec![], vec![5], true).unwrap();
    assert_eq!(f.to_text(), "+0.5");
}

#[test]
fn normalize_rejects_invalid_digit() {
    assert_eq!(
        BigNumber::normalize(vec![1, 10], vec![], true),
        Err(NumberError::InvalidDigit)
    );
    assert_eq!(
        BigNumber::normalize(vec![1], vec![2, 255], true),
        Err(NumberError::InvalidDigit)
    );
}

#[test]
fn from_raw_keeps_parts() {
    let n = BigNumber::from_raw(vec![1, 2, 3], vec![4, 5, 6], true);
    assert_eq!(n.to_text(), "+123.456");
    assert_eq!(n, num("123.456"));
}
