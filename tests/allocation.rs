use shortener::{
    allocate, load_token_increment_secret, next_symbol_by_hash, next_symbol_by_increment,
    IncrementedString, JsonSettings, StoreError, SymbolGenerator, ALPHABET, FIRST_PREFIX_LEN,
};

const DIGITS: &str = "0123456789";

#[test]
fn counting_skips_two_taken_symbols() {
    let mut store = JsonSettings::new();
    store.last_symbol = "5".to_string();
    store.register("6", "a");
    store.register("7", "b");
    assert_eq!(next_symbol_by_increment(&mut store, DIGITS), "8");
    assert_eq!(store.last_symbol, "8");
    assert_eq!(store.resolve("8"), Err(StoreError::NotFound));
}

#[test]
fn counting_allocation_skips_across_a_wrap() {
    let mut store = JsonSettings::new();
    store.last_symbol = "8".to_string();
    store.register("9", "a");
    store.register("00", "b");
    assert_eq!(next_symbol_by_increment(&mut store, DIGITS), "01");
}

#[test]
fn counting_allocation_never_repeats() {
    let mut store = JsonSettings::new();
    store.register("1", "a");
    store.register("3", "b");
    let mut seen = Vec::new();
    for _ in 0..30 {
        let s = next_symbol_by_increment(&mut store, DIGITS);
        assert!(store.resolve(&s).is_err());
        assert!(!seen.contains(&s));
        seen.push(s);
    }
    assert_eq!(seen[0], "0");
    assert_eq!(seen[1], "2");
    assert_eq!(seen[2], "4");
}

#[test]
fn allocate_registers_destination() {
    let mut store = JsonSettings::new();
    let s = allocate(&mut store, &SymbolGenerator::Sequential, ALPHABET, "https://example.com").unwrap();
    assert_eq!(s, "A");
    assert_eq!(store.resolve("A"), Ok("https://example.com".to_string()));
    let t = allocate(&mut store, &SymbolGenerator::Sequential, ALPHABET, "https://example.org").unwrap();
    assert_eq!(t, "B");
    assert_eq!(store.last_symbol, "B");
}

#[test]
fn keyed_candidates_are_growing_prefixes() {
    let key = load_token_increment_secret("secret");
    let mut inc = IncrementedString::new("", &key, ALPHABET);
    assert_eq!(inc.next_string.chars().count(), 32);
    assert!(inc.next_string.chars().all(|c| ALPHABET.contains(c)));
    let mut len = FIRST_PREFIX_LEN;
    while let Some(candidate) = inc.next() {
        assert_eq!(candidate.chars().count(), len);
        assert!(inc.next_string.starts_with(&candidate));
        len += 1;
    }
    assert_eq!(len, 32);
    assert_eq!(inc.next(), None);
}

#[test]
fn keyed_candidates_depend_on_cursor_and_key() {
    let key = load_token_increment_secret("secret");
    let other = load_token_increment_secret("other");
    let a = IncrementedString::new("abcd", &key, ALPHABET).next_string;
    let b = IncrementedString::new("abcd", &key, ALPHABET).next_string;
    let c = IncrementedString::new("abce", &key, ALPHABET).next_string;
    let d = IncrementedString::new("abcd", &other, ALPHABET).next_string;
    assert_eq!(a, b);
    assert_ne!(a, c);
    assert_ne!(a, d);
}

#[test]
fn keyed_allocation_takes_shortest_free_prefix() {
    let key = load_token_increment_secret("secret");
    let derived = IncrementedString::new("", &key, ALPHABET).next_string;
    let mut store = JsonSettings::new();
    let first = next_symbol_by_hash(&mut store, ALPHABET, &key).unwrap();
    assert_eq!(first, derived[..4]);
    assert_eq!(store.last_symbol, first);

    let mut store = JsonSettings::new();
    store.register(&derived[..4], "taken");
    store.register(&derived[..5], "taken");
    let third = next_symbol_by_hash(&mut store, ALPHABET, &key).unwrap();
    assert_eq!(third, derived[..6]);
    assert_eq!(store.last_symbol, third);
}

#[test]
fn keyed_allocation_exhausted() {
    let key = load_token_increment_secret("secret");
    let derived = IncrementedString::new("", &key, ALPHABET).next_string;
    let mut store = JsonSettings::new();
    for len in 4..32 {
        store.register(&derived[..len], "taken");
    }
    assert_eq!(next_symbol_by_hash(&mut store, ALPHABET, &key), Err(StoreError::AllocationExhausted));
    assert_eq!(store.last_symbol, "");
    assert_eq!(
        allocate(&mut store, &SymbolGenerator::Keyed(key), ALPHABET, "x"),
        Err(StoreError::AllocationExhausted)
    );
}

#[test]
fn keyed_allocations_chain_from_cursor() {
    let key = load_token_increment_secret("secret");
    let mut store = JsonSettings::new();
    let first = allocate(&mut store, &SymbolGenerator::Keyed(key), ALPHABET, "one").unwrap();
    let derived = IncrementedString::new(&first, &key, ALPHABET).next_string;
    let second = allocate(&mut store, &SymbolGenerator::Keyed(key), ALPHABET, "two").unwrap();
    assert_eq!(second, derived[..4]);
    assert_ne!(first, second);
    assert_eq!(store.resolve(&first), Ok("one".to_string()));
    assert_eq!(store.resolve(&second), Ok("two".to_string()));
}
