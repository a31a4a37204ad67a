use shortener::{
    add_redirect, chosen_alphabet, data_source, JsonSettings, StoreError, StoreSnapshot, ALPHABET,
};

#[test]
fn register_then_resolve() {
    let mut store = JsonSettings::new();
    assert_eq!(store.register("abc", "https://example.com/a"), "abc");
    assert_eq!(store.resolve("abc"), Ok("https://example.com/a".to_string()));
    store.register("abc", "https://example.com/b");
    assert_eq!(store.resolve("abc"), Ok("https://example.com/b".to_string()));
}

#[test]
fn unregistered_symbol_is_not_found() {
    let mut store = JsonSettings::new();
    assert_eq!(store.resolve("nope"), Err(StoreError::NotFound));
    store.register("yes", "https://example.com");
    assert_eq!(store.resolve("nope"), Err(StoreError::NotFound));
    assert_eq!(store.resolve(""), Err(StoreError::NotFound));
}

#[test]
fn empty_symbol_can_be_registered() {
    let mut store = JsonSettings::new();
    add_redirect(&mut store, "", "https://example.com/root");
    assert_eq!(store.resolve(""), Ok("https://example.com/root".to_string()));
    assert_eq!(store.last_symbol, "");
}

#[test]
fn snapshot_round_trip() {
    let mut store = JsonSettings::new();
    store.register("a", "1");
    store.register("b", "2");
    store.register("a", "3");
    store.last_symbol = "b".to_string();
    let saved = store.snapshot();
    assert_eq!(saved.redirects.len(), 2);
    let loaded = JsonSettings::from_snapshot(saved);
    assert_eq!(loaded.resolve("a"), Ok("3".to_string()));
    assert_eq!(loaded.resolve("b"), Ok("2".to_string()));
    assert_eq!(loaded.last_symbol, "b");
    let mut pairs = loaded.snapshot().redirects;
    pairs.sort();
    assert_eq!(pairs, vec![("a".to_string(), "3".to_string()), ("b".to_string(), "2".to_string())]);
}

#[test]
fn snapshot_later_pair_wins() {
    let snapshot = StoreSnapshot {
        redirects: vec![("k".to_string(), "old".to_string()), ("k".to_string(), "new".to_string())],
        last_symbol: "k".to_string(),
    };
    let store = JsonSettings::from_snapshot(snapshot);
    assert_eq!(store.resolve("k"), Ok("new".to_string()));
}

#[test]
fn failed_load_gives_empty_store() {
    let store = JsonSettings::restore(None);
    assert_eq!(store.last_symbol, "");
    assert!(store.snapshot().redirects.is_empty());
    let loaded = JsonSettings::restore(Some(StoreSnapshot {
        redirects: vec![("x".to_string(), "y".to_string())],
        last_symbol: "x".to_string(),
    }));
    assert_eq!(loaded.resolve("x"), Ok("y".to_string()));
    assert_eq!(loaded.last_symbol, "x");
}

#[test]
fn configuration_defaults() {
    assert_eq!(data_source(None), "data.json");
    assert_eq!(data_source(Some("store.json".to_string())), "store.json");
    assert_eq!(chosen_alphabet(None), ALPHABET);
    assert_eq!(chosen_alphabet(Some("01".to_string())), "01");
}
