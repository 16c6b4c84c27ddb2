use exifmv::date_prefix::strip_date_prefix;
use exifmv::text::{str_eq, trim};

#[test]
fn strip_date_prefix_formats() {
    assert_eq!(strip_date_prefix("2011-07-14--Iceland"), "Iceland");
    assert_eq!(strip_date_prefix("2011_07_14_Iceland"), "Iceland");
    assert_eq!(strip_date_prefix("2011.07.14 Iceland"), "Iceland");
    assert_eq!(strip_date_prefix("20110714 Iceland"), "Iceland");
    assert_eq!(strip_date_prefix("2011-0714Iceland"), "Iceland");
    assert_eq!(strip_date_prefix("2011-07-14"), "");
    assert_eq!(strip_date_prefix("2011-07-14 - . _x"), "x");
}

#[test]
fn strip_date_prefix_keeps_other_names() {
    assert_eq!(strip_date_prefix("Iceland"), "Iceland");
    assert_eq!(strip_date_prefix("2011"), "2011");
    assert_eq!(strip_date_prefix("2011-7-14 x"), "2011-7-14 x");
    assert_eq!(strip_date_prefix("2011--07-14 x"), "2011--07-14 x");
    assert_eq!(strip_date_prefix("2011-07-1x"), "2011-07-1x");
    assert_eq!(strip_date_prefix(""), "");
    assert_eq!(strip_date_prefix("２０１１-07-14 x"), "２０１１-07-14 x");
}

#[test]
fn trim_uses_unicode_whitespace() {
    assert_eq!(trim("\u{3000} a b\u{a0}\n"), "a b");
    assert_eq!(trim("   "), "");
    assert_eq!(trim("x"), "x");
    assert!(str_eq("abc", "abc"));
    assert!(!str_eq("abc", "abd"));
    assert!(!str_eq("ab", "abc"));
}

#[test]
fn trim_matches_std_for_every_char() {
    for code in 0u32..=0x10FFFF {
        if let Some(c) = char::from_u32(code) {
            let s = format!("{c}x{c}");
            assert_eq!(trim(&s), s.trim(), "{code:#x}");
        }
    }
}
