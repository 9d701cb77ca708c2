use rexplorer::strings::{i64ToString, parseI32, strEq, strStripPrefix, strStripSuffix, u64ToString};

#[test]
fn string_equality() {
    assert!(strEq("", ""));
    assert!(strEq("abc", "abc"));
    assert!(!strEq("abc", "abd"));
    assert!(!strEq("abc", "ab"));
    assert!(strEq("päth", "päth"));
}

#[test]
fn prefix_stripping() {
    assert_eq!(strStripPrefix("frame-12.png", "frame-"), Some("12.png"));
    assert_eq!(strStripPrefix("frame-12.png", "x"), None);
    assert_eq!(strStripPrefix("ab", "abc"), None);
    assert_eq!(strStripPrefix("abc", ""), Some("abc"));
}

#[test]
fn suffix_stripping() {
    assert_eq!(strStripSuffix("frame-12.png", ".png"), Some("frame-12"));
    assert_eq!(strStripSuffix("frame-12.png", ".jpg"), None);
    assert_eq!(strStripSuffix("a", "aa"), None);
    assert_eq!(strStripSuffix("abc", ""), Some("abc"));
}

#[test]
fn parse_decimal() {
    assert_eq!(parseI32("0"), Some(0));
    assert_eq!(parseI32("42"), Some(42));
    assert_eq!(parseI32("+13"), Some(13));
    assert_eq!(parseI32("-7"), Some(-7));
    assert_eq!(parseI32("2147483647"), Some(i32::MAX));
    assert_eq!(parseI32("-2147483648"), Some(i32::MIN));
    assert_eq!(parseI32("2147483648"), None);
    assert_eq!(parseI32("-2147483649"), None);
    assert_eq!(parseI32(""), None);
    assert_eq!(parseI32("-"), None);
    assert_eq!(parseI32("+"), None);
    assert_eq!(parseI32("12x"), None);
    assert_eq!(parseI32("x12"), None);
    assert_eq!(parseI32("99999999999999999999"), None);
}

#[test]
fn format_decimal() {
    assert_eq!(u64ToString(0), "0");
    assert_eq!(u64ToString(7), "7");
    assert_eq!(u64ToString(12345), "12345");
    assert_eq!(u64ToString(u64::MAX), "18446744073709551615");
    assert_eq!(i64ToString(-42), "-42");
    assert_eq!(i64ToString(42), "42");
    assert_eq!(i64ToString(0), "0");
}
