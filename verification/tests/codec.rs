use snip::codec::encode_snippets;
use snip::codec::parse_pairs;
use snip::entry::Entry;

fn entries(pairs: &[(&str, &str)]) -> Vec<Entry> {
    pairs.iter().map(|(n, v)| Entry::new(n, v)).collect()
}

fn as_pairs(entries: &[Entry]) -> Vec<(String, String)> {
    entries.iter().map(|e| (e.name.clone(), e.value.clone())).collect()
}

#[test]
fn round_trip_two_entries() {
    let es = entries(&[("a", "1"), ("b", "2")]);
    let text = encode_snippets(&es);
    assert_eq!(text, "a '1'\nb '2'\n");
    let back = parse_pairs(&text).expect("encoded text must decode");
    assert_eq!(as_pairs(&back), as_pairs(&es));
}

#[test]
fn round_trip_value_with_spaces() {
    let es = entries(&[("greet", "hello world"), ("x", "")]);
    let text = encode_snippets(&es);
    assert_eq!(text, "greet 'hello world'\nx ''\n");
    let back = parse_pairs(&text).expect("encoded text must decode");
    assert_eq!(as_pairs(&back), as_pairs(&es));
}

#[test]
fn decode_empty_text_is_absent() {
    assert!(parse_pairs("").is_none());
}

#[test]
fn decode_line_without_delimiter_fails() {
    assert!(parse_pairs("no delimiter at all").is_none());
}

#[test]
fn decode_line_without_delimiter_fails_whole_file() {
    assert!(parse_pairs("a '1'\nno delimiter here\nb '2'\n").is_none());
}

#[test]
fn decode_delimiter_first_fails() {
    assert!(parse_pairs("'value only'\n").is_none());
}

#[test]
fn decode_unterminated_value_fails() {
    assert!(parse_pairs("a 'open\n").is_none());
}

#[test]
fn decode_single_delimiter_fails() {
    assert!(parse_pairs("a '\n").is_none());
}

#[test]
fn decode_trims_both_parts() {
    let back = parse_pairs("  name   'v'  \n").expect("line is well formed");
    assert_eq!(as_pairs(&back), vec![("name".to_string(), "v".to_string())]);
}

#[test]
fn decode_without_trailing_newline() {
    let back = parse_pairs("a '1'").expect("final newline is optional");
    assert_eq!(as_pairs(&back), vec![("a".to_string(), "1".to_string())]);
}

#[test]
fn decode_keeps_inner_delimiters_of_value() {
    let back = parse_pairs("k 'a'b'\n").expect("inner delimiters stay in the value");
    assert_eq!(as_pairs(&back), vec![("k".to_string(), "a'b".to_string())]);
}

#[test]
fn decode_carriage_return_line_endings() {
    let back = parse_pairs("a '1'\r\nb '2'\r\n").expect("carriage returns are trimmed");
    assert_eq!(
        as_pairs(&back),
        vec![("a".to_string(), "1".to_string()), ("b".to_string(), "2".to_string())]
    );
}

#[test]
fn decode_trims_unicode_whitespace_padding() {
    let back = parse_pairs("a\u{a0}'1'\u{a0}\n").expect("padding is whitespace");
    assert_eq!(as_pairs(&back), vec![("a".to_string(), "1".to_string())]);
}

#[test]
fn decode_blank_line_fails() {
    assert!(parse_pairs("a '1'\n\nb '2'\n").is_none());
}
