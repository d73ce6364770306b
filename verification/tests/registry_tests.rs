use goto::errors::Error;
use goto::registry::UrlsMap;

#[test]
fn upsert_then_get() {
    let mut reg = UrlsMap::new();
    let was_update = reg.upsert("gh".to_string(), "https://github.com".to_string());
    assert!(!was_update);
    assert_eq!(reg.get("gh"), Some(&"https://github.com".to_string()));
}

#[test]
fn second_upsert_reports_update_and_replaces() {
    let mut reg = UrlsMap::new();
    assert!(!reg.upsert("gh".to_string(), "https://github.com".to_string()));
    let was_update = reg.upsert("gh".to_string(), "https://example.com".to_string());
    assert!(was_update);
    assert_eq!(reg.get("gh"), Some(&"https://example.com".to_string()));
    assert_eq!(reg.len(), 1);
}

#[test]
fn get_miss_is_none() {
    let mut reg = UrlsMap::new();
    reg.upsert("gh".to_string(), "https://github.com".to_string());
    assert_eq!(reg.get("g"), None);
    assert_eq!(reg.get("gh "), None);
    assert_eq!(reg.get("GH"), None);
}

#[test]
fn list_is_sorted_by_key() {
    let mut reg = UrlsMap::new();
    reg.upsert("b".to_string(), "https://b.example".to_string());
    reg.upsert("a".to_string(), "https://a.example".to_string());
    reg.upsert("c".to_string(), "https://c.example".to_string());
    let listed = reg.list_sorted();
    let keys: Vec<&str> = listed.iter().map(|e| e.key.as_str()).collect();
    assert_eq!(keys, vec!["a", "b", "c"]);
    assert_eq!(listed[0].url, "https://a.example");
}

#[test]
fn save_load_round_trip() {
    let mut reg = UrlsMap::new();
    reg.upsert("docs".to_string(), "https://doc.rust-lang.org".to_string());
    reg.upsert("gh".to_string(), "https://github.com".to_string());
    let text = reg.to_file_text();
    let loaded = UrlsMap::from_file_text(&text).unwrap();
    let before = reg.list_sorted();
    let after = loaded.list_sorted();
    assert_eq!(before.len(), after.len());
    for (b, a) in before.iter().zip(after.iter()) {
        assert_eq!(b.key, a.key);
        assert_eq!(b.url, a.url);
    }
    assert_eq!(loaded.to_file_text(), text);
}

#[test]
fn empty_registry_round_trip() {
    let reg = UrlsMap::new();
    let text = reg.to_file_text();
    let loaded = UrlsMap::from_file_text(&text).unwrap();
    assert_eq!(loaded.len(), 0);
    assert_eq!(loaded.to_file_text(), text);
}

#[test]
fn quotes_and_backslashes_round_trip() {
    let mut reg = UrlsMap::new();
    reg.upsert("we\"ird".to_string(), "https://ex.am/p\\le\"x".to_string());
    reg.upsert("back\\slash".to_string(), "plain".to_string());
    let text = reg.to_file_text();
    let loaded = UrlsMap::from_file_text(&text).unwrap();
    assert_eq!(loaded.get("we\"ird"), Some(&"https://ex.am/p\\le\"x".to_string()));
    assert_eq!(loaded.get("back\\slash"), Some(&"plain".to_string()));
}

#[test]
fn rendered_file_shape() {
    let mut reg = UrlsMap::new();
    reg.upsert("gh".to_string(), "https://github.com".to_string());
    let text = reg.to_file_text();
    assert_eq!(text, "{\n  \"url_map\": {\n    \"gh\": \"https://github.com\"\n  }\n}\n");
}

#[test]
fn empty_rendered_file_shape() {
    let reg = UrlsMap::new();
    assert_eq!(reg.to_file_text(), "{\n  \"url_map\": {}\n}\n");
}

#[test]
fn compact_text_parses() {
    let loaded = UrlsMap::from_file_text("{\"url_map\":{\"a\":\"b\"}}").unwrap();
    assert_eq!(loaded.get("a"), Some(&"b".to_string()));
}

#[test]
fn duplicate_keys_last_wins() {
    let loaded = UrlsMap::from_file_text("{\"url_map\":{\"a\":\"1\",\"a\":\"2\"}}").unwrap();
    assert_eq!(loaded.get("a"), Some(&"2".to_string()));
    assert_eq!(loaded.len(), 1);
}

#[test]
fn missing_file_is_empty_registry() {
    let loaded = UrlsMap::load_from(None).unwrap();
    assert_eq!(loaded.len(), 0);
}

#[test]
fn present_file_is_parsed() {
    let loaded = UrlsMap::load_from(Some("{\"url_map\": {\"k\": \"v\"}}")).unwrap();
    assert_eq!(loaded.get("k"), Some(&"v".to_string()));
}

#[test]
fn malformed_text_is_an_error() {
    assert_eq!(
        UrlsMap::from_file_text("not a registry").unwrap_err(),
        Error::MalformedRegistry
    );
    assert_eq!(
        UrlsMap::from_file_text("{\"urls\":{}}").unwrap_err(),
        Error::MalformedRegistry
    );
    assert_eq!(
        UrlsMap::from_file_text("{\"url_map\":{\"a\":\"b\"}").unwrap_err(),
        Error::MalformedRegistry
    );
    assert_eq!(
        UrlsMap::from_file_text("{\"url_map\":{\"a\":1}}").unwrap_err(),
        Error::MalformedRegistry
    );
    assert_eq!(
        UrlsMap::from_file_text("{\"url_map\":{}} trailing").unwrap_err(),
        Error::MalformedRegistry
    );
    assert_eq!(UrlsMap::from_file_text("").unwrap_err(), Error::MalformedRegistry);
}

#[test]
fn standard_json_escapes_parse() {
    let loaded =
        UrlsMap::from_file_text("{\"url_map\":{\"k\":\"a\\nb\\tc\\/d\\re\\bf\\fg\"}}").unwrap();
    assert_eq!(
        loaded.get("k"),
        Some(&"a\nb\tc/d\re\u{0008}f\u{000C}g".to_string())
    );
}

#[test]
fn control_characters_round_trip() {
    let mut reg = UrlsMap::new();
    reg.upsert("nl".to_string(), "line one\nline two".to_string());
    let text = reg.to_file_text();
    let loaded = UrlsMap::from_file_text(&text).unwrap();
    assert_eq!(loaded.get("nl"), Some(&"line one\nline two".to_string()));
}

#[test]
fn unknown_escape_is_malformed() {
    assert_eq!(
        UrlsMap::from_file_text("{\"url_map\":{\"a\\q\":\"b\"}}").unwrap_err(),
        Error::MalformedRegistry
    );
    assert_eq!(
        UrlsMap::from_file_text("{\"url_map\":{\"a\":\"b\\u0041\"}}").unwrap_err(),
        Error::MalformedRegistry
    );
}
