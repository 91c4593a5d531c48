use desktop_index::cache::{decode_cache, encode_cache, CacheError, CachedEntries};
use desktop_index::entry::DesktopEntryBase;

fn rec(
    name: &str,
    exec_cmd: &str,
    icon: Option<&str>,
    comment: Option<&str>,
    generic_name: Option<&str>,
) -> DesktopEntryBase {
    DesktopEntryBase {
        name: name.to_string(),
        exec_cmd: exec_cmd.to_string(),
        icon: icon.map(|s| s.to_string()),
        comment: comment.map(|s| s.to_string()),
        generic_name: generic_name.map(|s| s.to_string()),
    }
}

fn assert_rec_eq(a: &DesktopEntryBase, b: &DesktopEntryBase) {
    assert_eq!(a.name, b.name);
    assert_eq!(a.exec_cmd, b.exec_cmd);
    assert_eq!(a.icon, b.icon);
    assert_eq!(a.comment, b.comment);
    assert_eq!(a.generic_name, b.generic_name);
}

fn roundtrip(c: &CachedEntries) {
    let text = encode_cache(c);
    let back = decode_cache(text.as_str()).expect("encoded snapshot must decode");
    assert_eq!(back.last_update, c.last_update);
    assert_eq!(back.entries.len(), c.entries.len());
    for (a, b) in back.entries.iter().zip(c.entries.iter()) {
        assert_rec_eq(a, b);
    }
}

#[test]
fn round_trip_empty_snapshot() {
    roundtrip(&CachedEntries { entries: Vec::new(), last_update: 0 });
}

#[test]
fn round_trip_plain_records() {
    let c = CachedEntries {
        entries: vec![
            rec("Firefox", "firefox %u", Some("/usr/share/icons/firefox.png"), None, None),
            rec("Files", "nautilus", None, Some("Browse files"), Some("File Manager")),
        ],
        last_update: 1700000000,
    };
    roundtrip(&c);
}

#[test]
fn round_trip_preserves_absent_versus_empty_fields() {
    let c = CachedEntries {
        entries: vec![
            rec("A", "", None, Some(""), None),
            rec("", "b", Some(""), None, Some("")),
        ],
        last_update: 1,
    };
    roundtrip(&c);
}

#[test]
fn round_trip_escaped_and_exotic_characters() {
    let c = CachedEntries {
        entries: vec![
            rec(
                "Quo\"te\\Back",
                "run \"now\" \\ later",
                Some("ic\non"),
                Some("tab\there"),
                Some("Ünïcødé 漢字"),
            ),
            rec("\\\"\\", "\"", Some("\\"), Some("\"\""), None),
        ],
        last_update: u64::MAX,
    };
    roundtrip(&c);
}

#[test]
fn round_trip_largest_timestamp() {
    roundtrip(&CachedEntries { entries: Vec::new(), last_update: u64::MAX });
}

#[test]
fn encoded_document_is_json() {
    let c = CachedEntries {
        entries: vec![
            rec("Firefox", "firefox %u", Some("firefox"), Some("Browse the web"), Some(
                "Web Browser",
            )),
            rec("Terminal", "xterm", None, None, None),
        ],
        last_update: 42,
    };
    let text = encode_cache(&c);
    let v: serde_json::Value = serde_json::from_str(&text).expect("cache document must be JSON");
    assert_eq!(v["last_update"], serde_json::Value::from(42u64));
    let entries = v["entries"].as_array().expect("entries is an array");
    assert_eq!(entries.len(), 2);
    assert_eq!(entries[0]["name"].as_str(), Some("Firefox"));
    assert_eq!(entries[0]["exec"].as_str(), Some("firefox %u"));
    assert_eq!(entries[0]["icon"].as_str(), Some("firefox"));
    assert_eq!(entries[1]["icon"], serde_json::Value::Null);
    assert_eq!(entries[1]["comment"], serde_json::Value::Null);
    assert_eq!(entries[1]["generic_name"], serde_json::Value::Null);
}

#[test]
fn garbage_text_is_a_decode_error() {
    assert_eq!(decode_cache("not a cache").unwrap_err(), CacheError::Decode);
    assert_eq!(decode_cache("").unwrap_err(), CacheError::Decode);
    assert_eq!(decode_cache("{}").unwrap_err(), CacheError::Decode);
    assert_eq!(decode_cache("[]").unwrap_err(), CacheError::Decode);
}

#[test]
fn truncated_document_is_a_decode_error() {
    let c = CachedEntries {
        entries: vec![rec("Firefox", "firefox", None, None, None)],
        last_update: 7,
    };
    let text = encode_cache(&c);
    for cut in [1, text.len() / 2, text.len() - 1] {
        let part = &text[..cut];
        assert!(decode_cache(part).is_err(), "truncated at {} must fail", cut);
    }
}

#[test]
fn trailing_junk_is_a_decode_error() {
    let c = CachedEntries { entries: Vec::new(), last_update: 7 };
    let mut text = encode_cache(&c);
    text.push(' ');
    assert!(decode_cache(&text).is_err());
}

#[test]
fn oversized_timestamp_is_a_decode_error() {
    let text = "{\"entries\":[],\"last_update\":99999999999999999999}";
    assert!(decode_cache(text).is_err());
    let ok = "{\"entries\":[],\"last_update\":18446744073709551615}";
    assert_eq!(decode_cache(ok).unwrap().last_update, u64::MAX);
}
