use desktop_index::cache::{encode_cache, CachedEntries};
use desktop_index::engine::{first_match, get_matches_from_cache, search_cache_text};
use desktop_index::entry::DesktopEntryBase;

fn rec(
    name: &str,
    exec_cmd: &str,
    comment: Option<&str>,
    generic_name: Option<&str>,
) -> DesktopEntryBase {
    DesktopEntryBase {
        name: name.to_string(),
        exec_cmd: exec_cmd.to_string(),
        icon: None,
        comment: comment.map(|s| s.to_string()),
        generic_name: generic_name.map(|s| s.to_string()),
    }
}

#[test]
fn query_matching_is_case_insensitive() {
    let entries = vec![rec("Firefox", "firefox", None, None)];
    let r = get_matches_from_cache(entries, "FIRE", 10);
    assert_eq!(r.len(), 1);
    assert_eq!(r[0].name, "Firefox");

    let entries = vec![rec("firefox", "firefox", None, None)];
    let r = get_matches_from_cache(entries, "FiReFoX", 10);
    assert_eq!(r.len(), 1);

    let entries = vec![rec("Firefox", "firefox", None, None)];
    let r = get_matches_from_cache(entries, "chrome", 10);
    assert_eq!(r.len(), 0);
}

#[test]
fn limit_is_never_exceeded_on_the_cache_path() {
    let entries: Vec<DesktopEntryBase> =
        (0..7).map(|i| rec(&format!("App {}", i), "run", None, None)).collect();
    let r = get_matches_from_cache(entries, "app", 3);
    assert_eq!(r.len(), 3);
    assert_eq!(r[0].name, "App 0");
    assert_eq!(r[1].name, "App 1");
    assert_eq!(r[2].name, "App 2");
}

#[test]
fn present_generic_name_shadows_comment() {
    // name does not contain the query, generic_name is present but does not
    // contain it either: the record is excluded even though its comment
    // contains the query.
    let entries = vec![rec("Terminal", "xterm", Some("run firefox fast"), Some("Console"))];
    let r = get_matches_from_cache(entries, "firefox", 10);
    assert_eq!(r.len(), 0);
}

#[test]
fn field_priority_scenario() {
    let two = || {
        vec![
            rec("Files", "nautilus", None, Some("File Manager")),
            rec("Terminal", "xterm", Some("Run commands"), None),
        ]
    };

    let r = get_matches_from_cache(two(), "file", 10);
    assert_eq!(r.len(), 1);
    assert_eq!(r[0].name, "Files");

    let r = get_matches_from_cache(two(), "run", 10);
    assert_eq!(r.len(), 1);
    assert_eq!(r[0].name, "Terminal");
}

#[test]
fn search_over_an_encoded_cache_document() {
    let c = CachedEntries {
        entries: vec![
            rec("Files", "nautilus", None, Some("File Manager")),
            rec("Terminal", "xterm", Some("Run commands"), None),
        ],
        last_update: 5,
    };
    let text = encode_cache(&c);
    let r = search_cache_text(&text, "file", 10).unwrap();
    assert_eq!(r.len(), 1);
    assert_eq!(r[0].name, "Files");
    let r = search_cache_text(&text, "run", 10).unwrap();
    assert_eq!(r.len(), 1);
    assert_eq!(r[0].name, "Terminal");
}

#[test]
fn corrupt_cache_document_fails_every_search() {
    assert!(search_cache_text("{\"entries\":[", "anything", 10).is_err());
    assert!(search_cache_text("not json at all", "", 10).is_err());
}

#[test]
fn empty_query_matches_every_record_in_stored_order() {
    let entries = vec![
        rec("Zim", "z", None, None),
        rec("Atom", "a", None, None),
    ];
    let r = get_matches_from_cache(entries, "", 10);
    assert_eq!(r.len(), 2);
    // the cache path filters; it never reorders
    assert_eq!(r[0].name, "Zim");
    assert_eq!(r[1].name, "Atom");
}

#[test]
fn limit_zero_returns_nothing() {
    let entries = vec![rec("Firefox", "firefox", None, None)];
    let r = get_matches_from_cache(entries, "fire", 0);
    assert_eq!(r.len(), 0);
}

#[test]
fn first_match_answers_the_adapter_queries() {
    let r: Vec<DesktopEntryBase> = Vec::new();
    assert!(first_match(&r).is_none());
    let r = vec![rec("A", "a", None, None), rec("B", "b", None, None)];
    let first = first_match(&r).unwrap();
    assert_eq!(first.name, "A");
    assert_eq!(first.exec_cmd, "a");
}
