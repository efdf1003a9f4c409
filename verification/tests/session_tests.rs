use daps::encryptor::{decrypt_value, Encryptor};
use daps::record_store::parse_records;
use daps::sync::{ConfigError, LoadStart, SyncEngine};

fn plain_engine(base: &str) -> SyncEngine {
    SyncEngine::new(base.to_string(), Encryptor::new(false, "k".to_string())).unwrap()
}

#[test]
fn base_path_must_start_with_the_delimiter() {
    let enc = Encryptor::new(false, "k".to_string());
    let err = SyncEngine::new("prod".to_string(), enc).err().unwrap();
    assert_eq!(err, ConfigError::BasePathNotAbsolute);
    assert!(plain_engine("/prod").get_value("/x").is_none());
}

#[test]
fn cold_start_needs_remote_and_warm_start_hits_the_cache() {
    // cold start with no cache files: a full paginated remote load
    let mut engine = plain_engine("/");
    assert_eq!(engine.start_load(false, None, None), LoadStart::NeedRemote);
    let page1 = vec![
        ("/prod/app/db/password".to_string(), "s3cr3t".to_string()),
        ("/prod/app/url".to_string(), "https://x".to_string()),
    ];
    let page2 = vec![("/prod/web/port".to_string(), "8080".to_string())];
    engine.apply_page(&page1);
    engine.apply_page(&page2);
    let (index_text, values_text) = engine.finish_load().unwrap();

    // a second cold start against the now-present files: zero remote calls
    let mut second = plain_engine("/");
    assert_eq!(
        second.start_load(false, Some(&index_text), Some(&values_text)),
        LoadStart::CacheHit
    );
    assert_eq!(second.get_value("/prod/app/db/password").unwrap(), "s3cr3t");
    assert_eq!(second.get_value("/prod/web/port").unwrap(), "8080");
    // the index file lists every intermediate key, so reloading it registers
    // "db" under "/prod/app" twice: duplicates are kept, not folded
    assert_eq!(
        second.get_completions("/prod/app/d"),
        vec!["/prod/app/db".to_string(), "/prod/app/db".to_string()]
    );

    // a forced refresh ignores the files
    let mut third = plain_engine("/");
    assert_eq!(
        third.start_load(true, Some(&index_text), Some(&values_text)),
        LoadStart::NeedRemote
    );

    // a missing file is a cache miss
    let mut fourth = plain_engine("/");
    assert_eq!(fourth.start_load(false, Some(&index_text), None), LoadStart::NeedRemote);
}

#[test]
fn warm_start_decodes_encrypted_values() {
    let enc = Encryptor::new(true, "passphrase".to_string());
    let mut engine = SyncEngine::new("/".to_string(), enc).unwrap();
    engine.start_load(false, None, None);
    engine.apply_page(&vec![("/a/secret".to_string(), "plain".to_string())]);
    let (index_text, values_text) = engine.finish_load().unwrap();
    // the persisted value is ciphertext, not the plain text
    assert!(!values_text.contains("plain"));

    let enc2 = Encryptor::new(true, "passphrase".to_string());
    let mut second = SyncEngine::new("/".to_string(), enc2).unwrap();
    assert_eq!(
        second.start_load(false, Some(&index_text), Some(&values_text)),
        LoadStart::CacheHit
    );
    assert_eq!(second.get_value("/a/secret").unwrap(), "plain");
}

#[test]
fn insert_scenario_updates_index_values_and_store() {
    let mut engine = plain_engine("/");
    engine.start_load(false, None, None);
    let (append_line, index_text) = engine.update_all("/prod/app/db/password", "s3cr3t");
    assert_eq!(append_line, "/prod/app/db/password: s3cr3t\n");
    assert!(index_text.contains("/prod/app/db: [\"password\"]\n"));
    assert!(index_text.contains("/prod/app: [\"db\"]\n"));
    assert_eq!(engine.get_value("/prod/app/db/password").unwrap(), "s3cr3t");
    assert_eq!(engine.get_completions("/prod/app/d"), vec!["/prod/app/db".to_string()]);
}

#[test]
fn set_existing_yields_the_patch_instruction() {
    let mut engine = plain_engine("/");
    engine.start_load(false, None, None);
    engine.apply_page(&vec![("/k".to_string(), "old".to_string())]);
    let (search, replacement) = engine.set_existing("/k", "new");
    assert_eq!(search, "/k");
    assert_eq!(replacement, "/k: new");
    assert_eq!(engine.get_value("/k").unwrap(), "new");
}

#[test]
fn reload_of_an_absent_record_changes_nothing() {
    let mut engine = plain_engine("/");
    engine.start_load(false, None, None);
    assert!(engine.reload_one("/gone", None).is_none());
    assert!(engine.get_value("/gone").is_none());
    let (search, replacement) = engine.reload_one("/k", Some("fresh")).unwrap();
    assert_eq!(search, "/k");
    assert_eq!(replacement, "/k: fresh");
    assert_eq!(engine.get_value("/k").unwrap(), "fresh");
}

#[test]
fn migration_encodes_every_line_reversibly() {
    let enc = Encryptor::new(true, "passphrase".to_string());
    let engine = SyncEngine::new("/".to_string(), enc).unwrap();
    let content = "/a: alpha\n/b: beta\n";
    let migrated = engine.migrate_encryption(content).unwrap();

    let reader = Encryptor::new(true, "passphrase".to_string());
    let records = parse_records(&migrated);
    assert_eq!(records.len(), 2);
    assert_eq!(records[0].0, "/a");
    assert_eq!(decrypt_value(&reader, &records[0].1), "alpha");
    assert_eq!(records[1].0, "/b");
    assert_eq!(decrypt_value(&reader, &records[1].1), "beta");

    // running the migration a second time double-encodes: one decode no
    // longer recovers the original text
    let twice = engine.migrate_encryption(&migrated).unwrap();
    let twice_records = parse_records(&twice);
    assert_ne!(decrypt_value(&reader, &twice_records[0].1), "alpha");
}

#[test]
fn search_and_select_drive_the_session_state() {
    let mut engine = plain_engine("/");
    engine.start_load(false, None, None);
    engine.apply_page(&vec![
        ("/prod/DB/password".to_string(), "p1".to_string()),
        ("/prod/web/url".to_string(), "u1".to_string()),
        ("/dev/db/password".to_string(), "p2".to_string()),
    ]);
    // keys are lowercased before matching; the term is taken as written
    let hits = engine.search("db");
    assert_eq!(hits, vec!["/prod/DB/password".to_string(), "/dev/db/password".to_string()]);

    assert!(engine.select_index(5).is_none());
    assert_eq!(engine.select_index(1).unwrap(), "/dev/db/password");
    // the selected path now feeds the `set` reconstruction candidate
    assert_eq!(engine.get_completions("set"), vec!["set p2".to_string()]);
    assert_eq!(
        engine.get_completions("insert"),
        vec!["insert /dev/db/password:p2:String".to_string()]
    );

    // selecting a literal path echoes its cached value
    assert_eq!(engine.select_path("/prod/web/url").unwrap(), "u1");
    assert_eq!(engine.get_completions("SET"), vec!["set u1".to_string()]);
}

#[test]
fn completion_is_case_insensitive_and_requalifies() {
    let mut engine = plain_engine("/");
    engine.start_load(false, None, None);
    engine.apply_page(&vec![
        ("/Apps/One".to_string(), "1".to_string()),
        ("/Apps/two".to_string(), "2".to_string()),
        ("/other/thing".to_string(), "3".to_string()),
    ]);
    // each inserted path under /Apps registered "Apps" as a child of the
    // root again: duplicates are kept, not folded
    assert_eq!(
        engine.get_completions("/a"),
        vec!["/Apps".to_string(), "/Apps".to_string()]
    );
    assert_eq!(
        engine.get_completions("/Apps/"),
        vec!["/Apps/One".to_string(), "/Apps/two".to_string()]
    );
    assert_eq!(engine.get_completions("/Apps/O"), vec!["/Apps/One".to_string()]);
    assert_eq!(engine.get_completions("/Apps/o"), vec!["/Apps/One".to_string()]);
    assert!(engine.get_completions("/zzz").is_empty());
}

#[test]
fn complete_merges_path_candidates_before_commands() {
    let mut engine = plain_engine("/");
    engine.start_load(false, None, None);
    engine.apply_page(&vec![("/refunds/total".to_string(), "9".to_string())]);
    let out = engine.complete("re");
    // the path candidate under the root comes first, then the keywords
    assert_eq!(
        out,
        vec!["/refunds".to_string(), "refresh".to_string(), "reload".to_string()]
    );
}

#[test]
fn empty_and_root_inputs_complete_every_root_child() {
    let mut engine = plain_engine("/");
    engine.start_load(false, None, None);
    engine.apply_page(&vec![("/one".to_string(), "1".to_string())]);
    // children of the root: "one"; an empty prefix matches everything
    assert_eq!(engine.get_completions(""), vec!["/one".to_string()]);
    assert_eq!(engine.get_completions("/"), vec!["/one".to_string()]);
}

#[test]
fn values_with_colons_survive_persistence() {
    let mut engine = plain_engine("/");
    engine.start_load(false, None, None);
    engine.apply_page(&vec![("/url".to_string(), "https://h:443/p".to_string())]);
    let (index_text, values_text) = engine.finish_load().unwrap();
    let mut second = plain_engine("/");
    second.start_load(false, Some(&index_text), Some(&values_text));
    // the line splits at its first colon only
    assert_eq!(second.get_value("/url").unwrap(), "https://h:443/p");
}

#[test]
fn cache_file_names_substitute_the_delimiter() {
    let engine = plain_engine("/prod/app");
    assert_eq!(engine.values_file_name(), "values__prod_app.txt");
    assert_eq!(engine.parameters_file_name(), "parameters__prod_app.txt");
}
