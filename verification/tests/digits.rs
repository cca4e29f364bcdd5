use memwatch::digits::{push_decimal, push_padded2, push_signed};

fn decimal(n: u64) -> String {
    let mut out = String::new();
    push_decimal(&mut out, n);
    out
}

fn padded(n: u64) -> String {
    let mut out = String::new();
    push_padded2(&mut out, n);
    out
}

fn signed(i: i32) -> String {
    let mut out = String::new();
    push_signed(&mut out, i);
    out
}

#[test]
fn decimal_of_single_digits() {
    assert_eq!(decimal(0), "0");
    assert_eq!(decimal(7), "7");
    assert_eq!(decimal(9), "9");
}

#[test]
fn decimal_of_larger_numbers() {
    assert_eq!(decimal(10), "10");
    assert_eq!(decimal(1234567890), "1234567890");
    assert_eq!(decimal(u64::MAX), "18446744073709551615");
}

#[test]
fn decimal_agrees_with_std_formatting() {
    let mut n: u64 = 1;
    while n < u64::MAX / 7 {
        assert_eq!(decimal(n), format!("{}", n));
        assert_eq!(decimal(n - 1), format!("{}", n - 1));
        n = n * 7 + 3;
    }
}

#[test]
fn decimal_appends_to_what_is_there() {
    let mut out = String::from("n=");
    push_decimal(&mut out, 42);
    assert_eq!(out, "n=42");
}

#[test]
fn padded_is_two_wide_below_one_hundred() {
    assert_eq!(padded(0), "00");
    assert_eq!(padded(9), "09");
    assert_eq!(padded(10), "10");
    assert_eq!(padded(59), "59");
    assert_eq!(padded(99), "99");
}

#[test]
fn padded_keeps_longer_numbers_whole() {
    assert_eq!(padded(100), "100");
    assert_eq!(padded(307445734561825860), "307445734561825860");
}

#[test]
fn padded_agrees_with_std_formatting() {
    for n in 0..1000u64 {
        assert_eq!(padded(n), format!("{:02}", n));
    }
}

#[test]
fn signed_of_non_negative() {
    assert_eq!(signed(0), "0");
    assert_eq!(signed(255), "255");
    assert_eq!(signed(i32::MAX), "2147483647");
}

#[test]
fn signed_of_negative() {
    assert_eq!(signed(-1), "-1");
    assert_eq!(signed(-128), "-128");
    assert_eq!(signed(i32::MIN), "-2147483648");
}
