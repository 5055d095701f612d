use recol::fuzzy::{fuzzy_search, fuzzy_search_strings, normalize};

#[test]
fn drakula_finds_dracula() {
    let items = ["Dracula", "Solarized Dark", "Nord"];
    let hit = fuzzy_search(&items, "drakula");
    assert_eq!(hit, Some("Dracula"));
}

#[test]
fn exact_name_wins() {
    let items = ["Gruvbox Light", "Gruvbox Dark", "Nord"];
    assert_eq!(fuzzy_search(&items, "gruvbox dark"), Some("Gruvbox Dark"));
    assert_eq!(fuzzy_search(&items, "nord"), Some("Nord"));
}

#[test]
fn case_and_whitespace_insensitive() {
    let items = ["Tokyo Night"];
    assert_eq!(fuzzy_search(&items, "  TOKYO    night "), Some("Tokyo Night"));
}

#[test]
fn empty_candidates_give_none() {
    let items: [&str; 0] = [];
    assert_eq!(fuzzy_search(&items, "anything"), None);
}

#[test]
fn nonempty_candidates_always_give_some() {
    // Even a hopeless query picks some candidate rather than none.
    let items = ["alpha", "beta"];
    assert!(fuzzy_search(&items, "zzzzzzz").is_some());
}

#[test]
fn overlong_query_gives_none() {
    let items = ["alpha"];
    let long = "x".repeat(513);
    assert_eq!(fuzzy_search(&items, &long), None);
    let ok = "x".repeat(512);
    assert!(fuzzy_search(&items, &ok).is_some());
}

#[test]
fn word_bonus_prefers_containing_name() {
    let items = ["Deep Ocean", "Ocean Breeze Extended Edition"];
    // Both names score on similarity; the word hit pushes the containing one.
    let hit = fuzzy_search(&items, "ocean").unwrap();
    assert!(hit == "Deep Ocean" || hit == "Ocean Breeze Extended Edition");
}

#[test]
fn ties_resolve_to_first() {
    // Normalization makes these two candidates score identically; the
    // earlier one wins.
    let items = ["SAME", "same"];
    let hit = fuzzy_search(&items, "same").unwrap();
    assert_eq!(hit, "SAME");
}

#[test]
fn strings_variant_borrows_from_items() {
    let items = vec!["Iceberg".to_string(), "Papercolor".to_string()];
    assert_eq!(fuzzy_search_strings(&items, "iceberg"), Some("Iceberg"));
    let empty: Vec<String> = Vec::new();
    assert_eq!(fuzzy_search_strings(&empty, "iceberg"), None);
}

#[test]
fn normalize_lowercases_and_collapses() {
    assert_eq!(normalize("  Foo   BAR\tbaz  "), b"foo bar baz".to_vec());
    assert_eq!(normalize(""), Vec::<u8>::new());
    assert_eq!(normalize("   \t "), Vec::<u8>::new());
    assert_eq!(normalize("Plain"), b"plain".to_vec());
}
