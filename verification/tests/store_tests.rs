use daps::path_index::PathIndex;
use daps::record_store::{
    parse_record_line, parse_records, replace_first_line_containing, serialize_records,
    PatchOutcome,
};

#[test]
fn insert_builds_the_hierarchy() {
    let mut index = PathIndex::new();
    index.insert("/prod/app/db/password");
    assert_eq!(index.children("/prod/app/db"), vec!["password".to_string()]);
    assert_eq!(index.children("/prod/app"), vec!["db".to_string()]);
    assert_eq!(index.children("/prod"), vec!["app".to_string()]);
    assert_eq!(index.children("/"), vec!["prod".to_string()]);
    assert!(index.contains_key("/prod/app/db/password"));
    assert!(index.children("/prod/app/db/password").is_empty());
}

#[test]
fn root_is_always_present_and_unknown_paths_are_empty() {
    let index = PathIndex::new();
    assert!(index.contains_key("/"));
    assert!(index.children("/nowhere").is_empty());
}

#[test]
fn duplicate_insertion_appends_duplicate_children() {
    let mut index = PathIndex::new();
    index.insert("/a/b");
    index.insert("/a/b");
    assert_eq!(index.children("/a"), vec!["b".to_string(), "b".to_string()]);
}

#[test]
fn register_binds_a_bare_key() {
    let mut index = PathIndex::new();
    index.register("set");
    assert!(index.contains_key("set"));
    assert!(index.children("set").is_empty());
}

#[test]
fn record_lines_split_on_the_first_colon() {
    let parsed = parse_record_line("/app/url: https://example.test:8443/x").unwrap();
    assert_eq!(parsed.0, "/app/url");
    assert_eq!(parsed.1, "https://example.test:8443/x");
    assert!(parse_record_line("no separator here").is_none());
}

#[test]
fn record_lines_trim_padding_spaces() {
    let parsed = parse_record_line("  /k  :  v   ").unwrap();
    assert_eq!(parsed.0, "/k");
    assert_eq!(parsed.1, "v");
}

#[test]
fn records_roundtrip_through_serialization() {
    let entries = vec![
        ("/a".to_string(), "1".to_string()),
        ("/b/c".to_string(), "two words".to_string()),
    ];
    let text = serialize_records(&entries);
    assert_eq!(text, "/a: 1\n/b/c: two words\n");
    let back = parse_records(&text);
    assert_eq!(back, entries);
}

#[test]
fn parse_skips_lines_without_a_colon() {
    let recs = parse_records("/a: 1\njunk line\n\n/b: 2\n");
    assert_eq!(recs, vec![("/a".to_string(), "1".to_string()), ("/b".to_string(), "2".to_string())]);
}

#[test]
fn patch_replaces_in_place_and_pads_with_spaces() {
    let original = b"alpha: 1\nbeta: 22\ngamma: 333\n".to_vec();
    let mut content = original.clone();
    let outcome = replace_first_line_containing(&mut content, b"beta", b"beta: 9");
    assert_eq!(outcome, PatchOutcome::Replaced);
    // total byte length preserved
    assert_eq!(content.len(), original.len());
    // the bytes before and after the matched line are untouched
    assert_eq!(&content[..9], &original[..9]);
    assert_eq!(&content[18..], &original[18..]);
    // the line itself: replacement, newline, space padding
    assert_eq!(&content[9..18], b"beta: 9\n ");
    // the padded file still parses, with the padding trimmed away
    let text = String::from_utf8(content).unwrap();
    let recs = parse_records(&text);
    assert_eq!(recs[1], ("beta".to_string(), "9".to_string()));
}

#[test]
fn patch_leaves_the_file_alone_when_nothing_matches() {
    let original = b"alpha: 1\nbeta: 22\n".to_vec();
    let mut content = original.clone();
    let outcome = replace_first_line_containing(&mut content, b"missing", b"x: 0");
    assert_eq!(outcome, PatchOutcome::NotFound);
    assert_eq!(content, original);
}

#[test]
fn patch_rejects_a_replacement_that_would_grow_the_line() {
    let original = b"a: 1\nbb: 2\n".to_vec();
    let mut content = original.clone();
    let outcome =
        replace_first_line_containing(&mut content, b"a:", b"a: a much longer value");
    assert_eq!(outcome, PatchOutcome::ReplacementTooLong);
    assert_eq!(content, original);
}

#[test]
fn patch_touches_only_the_first_matching_line() {
    let mut content = b"k: old\nk: old\n".to_vec();
    let outcome = replace_first_line_containing(&mut content, b"k:", b"k: new");
    assert_eq!(outcome, PatchOutcome::Replaced);
    assert_eq!(&content, b"k: new\nk: old\n");
}

#[test]
fn patch_replaces_an_unterminated_final_line() {
    let mut content = b"a: 1\nbb: 22222".to_vec();
    let outcome = replace_first_line_containing(&mut content, b"bb", b"bb: 9");
    assert_eq!(outcome, PatchOutcome::Replaced);
    assert_eq!(&content, b"a: 1\nbb: 9\n   ");
}
