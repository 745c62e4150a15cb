use snip::store::add;
use snip::store::find;
use snip::store::list;
use snip::store::remove;
use snip::store::AddOutcome;
use snip::store::ListOutcome;
use snip::store::RemoveOutcome;

#[test]
fn add_then_colliding_add_keeps_first_value() {
    let text1 = match add("", "x", "1") {
        AddOutcome::Stored { new_text } => new_text,
        AddOutcome::Exists { .. } => panic!("empty store has no entry x"),
    };
    assert_eq!(text1, "x '1'\n");
    match add(&text1, "x", "2") {
        AddOutcome::Exists { current } => assert_eq!(current, "1"),
        AddOutcome::Stored { .. } => panic!("second add must report the collision"),
    }
    assert_eq!(find(&text1, "x"), vec!["1".to_string()]);
}

#[test]
fn add_appends_at_end() {
    let text = match add("a '1'\n", "b", "2") {
        AddOutcome::Stored { new_text } => new_text,
        AddOutcome::Exists { .. } => panic!("b is new"),
    };
    assert_eq!(text, "a '1'\nb '2'\n");
}

#[test]
fn add_replaces_corrupt_file_with_single_entry() {
    let text = match add("garbage line", "x", "1") {
        AddOutcome::Stored { new_text } => new_text,
        AddOutcome::Exists { .. } => panic!("corrupt store holds nothing"),
    };
    assert_eq!(text, "x '1'\n");
}

#[test]
fn set_twice_leaves_one_entry_with_last_value() {
    let text1 = snip::store::set("", "x", "1");
    assert_eq!(text1, "x '1'\n");
    let text2 = snip::store::set(&text1, "x", "2");
    assert_eq!(text2, "x '2'\n");
    assert_eq!(find(&text2, "x"), vec!["2".to_string()]);
}

#[test]
fn set_reorders_by_swap_remove() {
    let text = snip::store::set("a '1'\nb '2'\nc '3'\n", "a", "9");
    assert_eq!(text, "c '3'\nb '2'\na '9'\n");
}

#[test]
fn set_appends_when_name_is_new() {
    let text = snip::store::set("a '1'\n", "b", "2");
    assert_eq!(text, "a '1'\nb '2'\n");
}

#[test]
fn remove_missing_name_writes_nothing() {
    match remove("a '1'\n", "x") {
        RemoveOutcome::NotFound => {},
        RemoveOutcome::Removed { .. } => panic!("x is not in the store"),
        RemoveOutcome::Silent => panic!("the store decodes"),
    }
}

#[test]
fn remove_on_corrupt_file_is_silent() {
    match remove("garbage line", "x") {
        RemoveOutcome::Silent => {},
        _ => panic!("an undecodable store is a silent no-op"),
    }
}

#[test]
fn remove_uses_swap_remove() {
    match remove("a '1'\nb '2'\nc '3'\n", "a") {
        RemoveOutcome::Removed { new_text } => assert_eq!(new_text, "c '3'\nb '2'\n"),
        _ => panic!("a is in the store"),
    }
}

#[test]
fn find_reports_every_match_in_order() {
    let values = find("x 'a'\ny 'b'\nx 'c'\n", "x");
    assert_eq!(values, vec!["a".to_string(), "c".to_string()]);
}

#[test]
fn find_single_entry() {
    let values = find("greet 'hello world'\n", "greet");
    assert_eq!(values, vec!["hello world".to_string()]);
}

#[test]
fn find_is_silent_on_corrupt_file() {
    assert!(find("garbage line", "x").is_empty());
}

#[test]
fn list_of_empty_text_gives_notice_and_no_entries() {
    match list("", None) {
        ListOutcome::Listing { notice, shown } => {
            assert!(notice);
            assert!(shown.is_empty());
        },
        ListOutcome::SyntaxError => panic!("an empty store is not a syntax error"),
    }
}

#[test]
fn list_without_filter_shows_all_in_order() {
    match list("a '1'\nb '2'\n", None) {
        ListOutcome::Listing { notice, shown } => {
            assert!(!notice);
            let pairs: Vec<(String, String)> =
                shown.iter().map(|e| (e.name.clone(), e.value.clone())).collect();
            assert_eq!(
                pairs,
                vec![("a".to_string(), "1".to_string()), ("b".to_string(), "2".to_string())]
            );
        },
        ListOutcome::SyntaxError => panic!("the store decodes"),
    }
}

#[test]
fn list_filters_by_name_substring() {
    match list("alpha '1'\nbeta '2'\nalbum '3'\n", Some("al")) {
        ListOutcome::Listing { notice, shown } => {
            assert!(!notice);
            let names: Vec<String> = shown.iter().map(|e| e.name.clone()).collect();
            assert_eq!(names, vec!["alpha".to_string(), "album".to_string()]);
        },
        ListOutcome::SyntaxError => panic!("the store decodes"),
    }
}

#[test]
fn list_filter_matching_nothing_gives_notice_and_shows_nothing() {
    match list("a '1'\n", Some("zzz")) {
        ListOutcome::Listing { notice, shown } => {
            assert!(notice);
            assert!(shown.is_empty());
        },
        ListOutcome::SyntaxError => panic!("the store decodes"),
    }
}

#[test]
fn list_of_corrupt_file_is_syntax_error() {
    match list("garbage line", None) {
        ListOutcome::SyntaxError => {},
        ListOutcome::Listing { .. } => panic!("an undecodable store is a syntax error"),
    }
}
