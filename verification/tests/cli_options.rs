use apfsrelic::cli::{parse, parse_number, parse_unsigned_str, trimmed};
use apfsrelic::commands::{is_safe_name, join_path};

#[test]
fn parses_numbers() {
    assert_eq!(parse_number("0x10"), Some(16));
    assert_eq!(parse_number("42"), Some(42));
    assert_eq!(parse_number("nope"), None);
}

#[test]
fn parses_mixed_forms() {
    let a: Vec<String> = vec![
        "--container".into(),
        "/x".into(),
        "--volume=1".into(),
        "--json".into(),
        "--max-xid".into(),
        "0x1f".into(),
    ];
    let o = parse(&a).unwrap();
    assert_eq!(o.container.unwrap(), "/x");
    assert_eq!(o.volume, Some(1));
    assert!(o.json);
    assert_eq!(o.max_xid, 0x1f);
}

#[test]
fn unknown_option_errors() {
    assert!(parse(&["--bogus".into(), "x".into()]).is_err());
}

#[test]
fn safe_name_rejects_traversal() {
    assert!(is_safe_name("file.txt"));
    assert!(!is_safe_name(".."));
    assert!(!is_safe_name("a/b"));
    assert!(!is_safe_name(""));
}

#[test]
fn number_forms_trim_and_reject_overflow() {
    assert_eq!(parse_number("  0X1F "), Some(31));
    assert_eq!(parse_number("18446744073709551615"), Some(u64::MAX));
    assert_eq!(parse_number("18446744073709551616"), None);
    assert_eq!(parse_number("0x"), None);
    assert_eq!(parse_number(""), None);
    assert_eq!(parse_number("+5"), Some(5));
    assert_eq!(parse_number("-5"), None);
    assert_eq!(parse_unsigned_str("ff", 16), Some(255));
    assert_eq!(trimmed(" \tab c\n"), "ab c");
}

#[test]
fn later_value_options_win_and_missing_value_errors() {
    let a: Vec<String> = vec!["--volume".into(), "1".into(), "--volume=3".into()];
    assert_eq!(parse(&a).unwrap().volume, Some(3));
    let b: Vec<String> = vec!["--volume".into()];
    assert!(parse(&b).is_err());
    let c: Vec<String> = vec!["--volume".into(), "abc".into()];
    assert!(parse(&c).is_err());
    let d: Vec<String> = vec![];
    let o = parse(&d).unwrap();
    assert_eq!(o.volume, None);
    assert!(!o.json);
    assert_eq!(o.max_xid, u64::MAX);
}

#[test]
fn joins_paths_with_single_separator() {
    assert_eq!(join_path("/", "a"), "/a");
    assert_eq!(join_path("/dir", "a"), "/dir/a");
    assert_eq!(join_path("/dir/", "a"), "/dir/a");
}
