use junction::text::{append_decimal, parse_as_str};

fn decimal(n: u64) -> String {
    let mut text = String::new();
    append_decimal(&mut text, n);
    text
}

#[test]
fn numbers_are_read() {
    assert_eq!(parse_as_str(b"0"), Ok(0));
    assert_eq!(parse_as_str(b"25"), Ok(25));
    assert_eq!(parse_as_str(b"255"), Ok(255));
    assert_eq!(parse_as_str(b"+5"), Ok(5));
    assert_eq!(parse_as_str(b"0000000005"), Ok(5));
}

#[test]
fn what_is_no_number_is_refused() {
    for bad in ["", "+", "-1", "-0", "256", "1000", "1 ", " 1", "a", "1a", "++1", "0x1", "\u{661}"] {
        assert_eq!(parse_as_str(bad.as_bytes()), Err(()), "{}", bad);
    }
    assert_eq!(parse_as_str(b"\xff"), Err(()));
}

#[test]
fn reading_agrees_with_std() {
    for n in 0..1000u32 {
        let text = n.to_string();
        assert_eq!(parse_as_str(text.as_bytes()), text.parse::<u8>().map_err(|_| ()));
    }
}

#[test]
fn numbers_are_written() {
    assert_eq!(decimal(0), "0");
    assert_eq!(decimal(9), "9");
    assert_eq!(decimal(10), "10");
    assert_eq!(decimal(65535), "65535");
    assert_eq!(decimal(u64::MAX), "18446744073709551615");
    let mut text = "port ".to_string();
    append_decimal(&mut text, 443);
    assert_eq!(text, "port 443");
}
