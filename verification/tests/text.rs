use focal_desk::number::{is_float, parse_u64};
use focal_desk::text::{chars_of, is_whitespace, lowercase_chars, trim};

fn chars(s: &str) -> Vec<char> {
    s.chars().collect()
}

#[test]
fn floats_are_what_f32_accepts() {
    for ok in ["1", "1.5", ".5", "5.", "-2", "+3.25", "1e3", "2E-1", "1.e5", "1e+5", "inf", "INF", "-Infinity", "NaN", "+nan"] {
        assert!(is_float(&chars(ok)), "{ok}");
        assert!(ok.parse::<f32>().is_ok(), "{ok}");
    }
    for bad in ["", ".", "-", "1.2.3", "e5", ".e5", "1e", "1e+", "1 ", "wide", "0x10", "infinit", "in"] {
        assert!(!is_float(&chars(bad)), "{bad}");
        assert!(bad.parse::<f32>().is_err(), "{bad}");
    }
}

#[test]
fn u64s_are_what_u64_accepts() {
    assert_eq!(parse_u64(&chars("0")), Some(0));
    assert_eq!(parse_u64(&chars("+1200")), Some(1200));
    assert_eq!(parse_u64(&chars("18446744073709551615")), Some(u64::MAX));
    assert_eq!(parse_u64(&chars("18446744073709551616")), None);
    assert_eq!(parse_u64(&chars("-1")), None);
    assert_eq!(parse_u64(&chars("")), None);
    assert_eq!(parse_u64(&chars("+")), None);
    assert_eq!(parse_u64(&chars("12a")), None);
}

#[test]
fn text_helpers() {
    assert_eq!(lowercase_chars(&chars("Code.EXE")), chars("code.exe"));
    assert_eq!(trim(&chars(" \t a b \r")), chars("a b"));
    assert_eq!(chars_of("xy"), vec!['x', 'y']);
}

#[test]
fn whitespace_is_the_unicode_property() {
    assert!(is_whitespace(' '));
    assert!(is_whitespace('\u{3000}'));
    assert!(!is_whitespace('\u{200B}'));
    assert!(!is_whitespace('a'));
    for u in 0u32..=0x10FFFF {
        if let Some(c) = char::from_u32(u) {
            assert_eq!(is_whitespace(c), c.is_whitespace(), "U+{:04X}", u);
        }
    }
    assert_eq!(trim(&chars("\u{3000}x\u{2029}")), chars("x"));
}
