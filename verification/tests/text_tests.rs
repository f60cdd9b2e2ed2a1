use editag::text::{chars_of, decimal_string, join_strings, parse_unsigned_range, trim_str};

#[test]
fn trimming() {
    assert_eq!(trim_str("  a b \t\n"), "a b");
    assert_eq!(trim_str("\u{3000}x\u{a0}"), "x");
    assert_eq!(trim_str("   "), "");
}

#[test]
fn unsigned_parsing() {
    let p = |s: &str, max: u32| {
        let v = chars_of(s);
        parse_unsigned_range(&v, 0, v.len(), max)
    };
    assert_eq!(p("255", 255), Some(255));
    assert_eq!(p("256", 255), None);
    assert_eq!(p("+12", 255), Some(12));
    assert_eq!(p("007", 255), Some(7));
    assert_eq!(p("", 255), None);
    assert_eq!(p("+", 255), None);
    assert_eq!(p("-1", 255), None);
    assert_eq!(p(" 1", 255), None);
    assert_eq!(p("4294967295", u32::MAX), Some(u32::MAX));
    assert_eq!(p("4294967296", u32::MAX), None);
}

#[test]
fn decimal_round_trip() {
    for n in [0u32, 7, 10, 255, 1000, u32::MAX] {
        let s = decimal_string(n);
        assert_eq!(s, n.to_string());
        let v = chars_of(&s);
        assert_eq!(parse_unsigned_range(&v, 0, v.len(), u32::MAX), Some(n));
    }
}

#[test]
fn joining() {
    assert_eq!(join_strings(&vec![], "; "), "");
    assert_eq!(join_strings(&vec!["a".to_string()], "; "), "a");
    assert_eq!(join_strings(&vec!["a".to_string(), "b".to_string()], "; "), "a; b");
}
