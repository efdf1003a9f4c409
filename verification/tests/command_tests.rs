use daps::command::{parse_command, parse_insert_command, parse_usize, Command, FormatError};

#[test]
fn exact_keywords_parse_first() {
    assert!(matches!(parse_command("exit"), Command::Exit));
    assert!(matches!(parse_command("refresh"), Command::Refresh));
    assert!(matches!(parse_command("migration"), Command::Migration));
    assert!(matches!(parse_command("reload"), Command::Reload));
}

#[test]
fn set_takes_the_rest_of_the_line() {
    assert!(matches!(parse_command("set  hello world"), Command::SetValue(v) if v == "hello world"));
    assert!(matches!(parse_command("set"), Command::SetValue(v) if v.is_empty()));
}

#[test]
fn select_takes_the_argument_after_the_verb() {
    assert!(matches!(parse_command("select 2"), Command::Select(a) if a == "2"));
    assert!(matches!(parse_command("sel 10 "), Command::Select(a) if a == "10"));
    assert!(matches!(parse_command("select"), Command::Select(a) if a.is_empty()));
}

#[test]
fn insert_search_and_literal_paths_parse() {
    assert!(matches!(
        parse_command("insert /a/b:v:String"),
        Command::Insert(p) if p == "/a/b:v:String"
    ));
    assert!(matches!(parse_command("search  db "), Command::Search(t) if t == "db"));
    assert!(matches!(
        parse_command("/prod/app/url"),
        Command::SelectPath(p) if p == "/prod/app/url"
    ));
}

#[test]
fn insert_payload_splits_path_value_and_type() {
    let (path, value, ty) = parse_insert_command("/a/b:v:String").unwrap();
    assert_eq!(path, "/a/b");
    assert_eq!(value, "v");
    assert_eq!(ty.unwrap(), "String");
}

#[test]
fn insert_payload_without_a_type_keeps_the_whole_value() {
    let (path, value, ty) = parse_insert_command("/a/b:hello").unwrap();
    assert_eq!(path, "/a/b");
    assert_eq!(value, "hello");
    assert!(ty.is_none());
}

#[test]
fn insert_payload_without_a_separator_is_malformed() {
    assert_eq!(parse_insert_command("no separator"), Err(FormatError::MissingSeparator));
}

#[test]
fn numbers_parse_exactly() {
    assert_eq!(parse_usize("0"), Some(0));
    assert_eq!(parse_usize("42"), Some(42));
    assert_eq!(parse_usize("4294967295"), Some(4294967295));
    assert_eq!(parse_usize(""), None);
    assert_eq!(parse_usize("4a"), None);
    assert_eq!(parse_usize("-3"), None);
    assert_eq!(parse_usize("99999999999999999999"), None);
    assert_eq!(parse_usize("0042"), Some(42));
}
