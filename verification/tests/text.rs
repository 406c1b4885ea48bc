use upnp::text::{int_to_string, parse_i64, trim_chars};

fn chars(s: &str) -> Vec<char> {
    s.chars().collect()
}

#[test]
fn integers_print_in_decimal() {
    assert_eq!(int_to_string(0), "0");
    assert_eq!(int_to_string(907), "907");
    assert_eq!(int_to_string(-42), "-42");
    assert_eq!(int_to_string(i64::MIN), "-9223372036854775808");
    assert_eq!(int_to_string(i64::MAX), "9223372036854775807");
}

#[test]
fn integers_parse_like_from_str() {
    assert_eq!(parse_i64(&chars("12")), Some(12));
    assert_eq!(parse_i64(&chars("+12")), Some(12));
    assert_eq!(parse_i64(&chars("-12")), Some(-12));
    assert_eq!(parse_i64(&chars("007")), Some(7));
    assert_eq!(parse_i64(&chars("-9223372036854775808")), Some(i64::MIN));
    assert_eq!(parse_i64(&chars("9223372036854775807")), Some(i64::MAX));
    assert_eq!(parse_i64(&chars("9223372036854775808")), None);
    assert_eq!(parse_i64(&chars("")), None);
    assert_eq!(parse_i64(&chars("-")), None);
    assert_eq!(parse_i64(&chars(" 1")), None);
    assert_eq!(parse_i64(&chars("1x")), None);
    for v in [0i64, 1, -1, 123456789, i64::MIN, i64::MAX] {
        assert_eq!(parse_i64(&chars(&int_to_string(v))), Some(v));
        assert_eq!(v.to_string().parse::<i64>().ok(), parse_i64(&chars(&v.to_string())));
    }
}

#[test]
fn trim_drops_unicode_whitespace() {
    assert_eq!(trim_chars(&chars(" \t a b \u{3000}\n")), chars("a b"));
    assert_eq!(trim_chars(&chars("   ")), chars(""));
}
