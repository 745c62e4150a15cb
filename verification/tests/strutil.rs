use snip::strutil::contains_str;
use snip::strutil::str_eq;
use snip::strutil::trim_str;

#[test]
fn trim_strips_both_ends_only() {
    assert_eq!(trim_str("  a b \t\r "), "a b");
    assert_eq!(trim_str("ab"), "ab");
    assert_eq!(trim_str("   "), "");
    assert_eq!(trim_str(""), "");
}

#[test]
fn trim_strips_unicode_whitespace() {
    assert_eq!(trim_str("\u{a0}x\u{2003}"), "x");
    assert_eq!(trim_str("\u{b}\u{c}\u{85}y\u{3000}"), "y");
    assert_eq!(trim_str(" a\u{a0}b "), "a\u{a0}b");
}

#[test]
fn str_eq_compares_exactly() {
    assert!(str_eq("abc", "abc"));
    assert!(!str_eq("abc", "abd"));
    assert!(!str_eq("abc", "ab"));
    assert!(str_eq("", ""));
}

#[test]
fn contains_is_literal_substring() {
    assert!(contains_str("alphabet", "pha"));
    assert!(contains_str("alphabet", ""));
    assert!(contains_str("alphabet", "alphabet"));
    assert!(!contains_str("alphabet", "beta"));
    assert!(!contains_str("ab", "abc"));
}

#[test]
fn codec_handles_multibyte_characters() {
    let back = snip::codec::parse_pairs("caf\u{e9} 'cr\u{e8}me br\u{fb}l\u{e9}e'\n")
        .expect("line is well formed");
    assert_eq!(back.len(), 1);
    assert_eq!(back[0].name, "caf\u{e9}");
    assert_eq!(back[0].value, "cr\u{e8}me br\u{fb}l\u{e9}e");
}
