use hpke_demo::text::{decimal, same, split_all, split_once, strip_prefix};

#[test]
fn decimals() {
    for n in [0usize, 1, 9, 10, 11, 99, 100, 1234567890, usize::MAX] {
        assert_eq!(decimal(n), n.to_string());
    }
}

#[test]
fn cutting() {
    assert_eq!(split_once("a=b=c", '='), Some(("a", "b=c")));
    assert_eq!(split_once("=", '='), Some(("", "")));
    assert_eq!(split_once("ü=ß", '='), Some(("ü", "ß")));
    assert_eq!(split_once("", '='), None);
    assert_eq!(split_once("üß", '='), None);
}

#[test]
fn splitting() {
    assert_eq!(split_all("", '&'), vec![""]);
    assert_eq!(split_all("a&&ü&", '&'), vec!["a", "", "ü", ""]);
}

#[test]
fn prefixes() {
    assert_eq!(strip_prefix("bwc://x", "bwc://"), Some("x"));
    assert_eq!(strip_prefix("bwc://", "bwc://"), Some(""));
    assert_eq!(strip_prefix("bwc:/", "bwc://"), None);
    assert_eq!(strip_prefix("bwc:/\u{fc}", "bwc://"), None);
    assert_eq!(strip_prefix("x", ""), Some("x"));
}

#[test]
fn comparing() {
    assert!(same("", ""));
    assert!(same("token", "token"));
    assert!(!same("token", "tokem"));
    assert!(!same("token", "tok"));
}
