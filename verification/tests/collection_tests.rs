use recol::collection::{build_theme_bundle, Collection, LazyTheme, LazyThemeFilter};
use recol::color::Color;
use recol::scheme::ColorScheme;
use recol::theme::Theme;
use recol::ThemeError;

fn theme_with(name: &str, bg: u32) -> Theme {
    let mut v = vec![
        Color::from_hex(bg),
        Color::from_hex(0xd0d0d0),
        Color::from_hex(0x808080),
        Color::from_hex(0xf0f0f0),
        Color::from_hex(0x00ffff),
        Color::from_hex(0x101010),
    ];
    for i in 0..16u32 {
        v.push(Color::from_hex(0x111111 + i * 0x050301));
    }
    Theme::new(name.to_string(), ColorScheme::from_color_slice(&v))
}

fn sample_bundle() -> Vec<u8> {
    let themes = vec![
        theme_with("Nord", 0x2e3440),
        theme_with("Solarized Light", 0xfdf6e3),
        theme_with("Dracula", 0x282a36),
        theme_with("Alabaster", 0xf7f7f7),
    ];
    build_theme_bundle(&themes)
}

#[test]
fn bundle_layout_two_black_themes() {
    let black = 0x000000;
    let a = theme_with("A", black);
    let bb = theme_with("Bb", black);
    let bytes = build_theme_bundle(&vec![a, bb]);
    // Count, big-endian.
    assert_eq!(&bytes[0..2], &[0x00, 0x02]);
    // First offset is zero; the second is the size of the first record:
    // 1 + 1 + 1 + 66 = 69.
    assert_eq!(&bytes[2..6], &[0, 0, 0, 0]);
    assert_eq!(&bytes[6..10], &[0, 0, 0, 69]);
    // The records follow: name length, name, flag, palette.
    assert_eq!(bytes[10], 1);
    assert_eq!(bytes[11], b'A');
    assert_eq!(bytes[12], 0);
    // All-black background stored as three zero bytes.
    assert_eq!(&bytes[13..16], &[0, 0, 0]);
    // Second record starts right after the first.
    assert_eq!(bytes[10 + 69], 2);
    assert_eq!(&bytes[10 + 70..10 + 72], b"Bb");
}

#[test]
fn collection_count_and_get() {
    let bytes = sample_bundle();
    let col = Collection::new(&bytes);
    assert_eq!(col.count, 4);
    let first = col.get(0).unwrap();
    assert_eq!(first.name, "Nord");
    assert!(!first.is_light);
    let second = col.get(1).unwrap();
    assert_eq!(second.name, "Solarized Light");
    assert!(second.is_light);
    assert!(col.get(4).is_none());
    assert!(col.get(10_000).is_none());
}

#[test]
fn get_matches_iteration_order() {
    let bytes = sample_bundle();
    let col = Collection::new(&bytes);
    let mut it = col.iter();
    let mut i = 0usize;
    while let Some(lt) = it.next() {
        let got = col.get(i).unwrap();
        assert_eq!(got.name, lt.name);
        assert_eq!(got.is_light, lt.is_light);
        i += 1;
    }
    assert_eq!(i, 4);
}

#[test]
fn into_theme_materializes() {
    let bytes = sample_bundle();
    let col = Collection::new(&bytes);
    let lazy = col.get(2).unwrap();
    let theme = lazy.into_theme();
    assert_eq!(theme.name, "Dracula");
    assert_eq!(theme.is_light, lazy.is_light);
    assert_eq!(theme.colors.background[1], Color::from_hex(0x282a36));
}

#[test]
fn lazy_from_bytes_errors() {
    assert_eq!(
        LazyTheme::from_bytes(&[]).unwrap_err(),
        ThemeError::TooShort
    );
    assert_eq!(
        LazyTheme::from_bytes(&[9, 1]).unwrap_err(),
        ThemeError::InvalidLength
    );
}

#[test]
fn by_name_finds_first_match() {
    let bytes = sample_bundle();
    let col = Collection::new(&bytes);
    let hit = col.by_name("Dracula", None).unwrap();
    assert_eq!(hit.name, "Dracula");
    assert!(col.by_name("dracula", None).is_none());
    assert!(col.by_name("Missing", None).is_none());
    // A dark filter hides a light theme.
    assert!(col
        .by_name("Solarized Light", Some(&LazyThemeFilter::Dark))
        .is_none());
    assert!(col
        .by_name("Solarized Light", Some(&LazyThemeFilter::Light))
        .is_some());
}

#[test]
fn name_list_orders() {
    let bytes = sample_bundle();
    let col = Collection::new(&bytes);
    let stored = col.name_list(None, false);
    assert_eq!(stored, vec!["Nord", "Solarized Light", "Dracula", "Alabaster"]);
    let sorted = col.name_list(None, true);
    assert_eq!(sorted, vec!["Alabaster", "Dracula", "Nord", "Solarized Light"]);
}

#[test]
fn name_list_filters() {
    let bytes = sample_bundle();
    let col = Collection::new(&bytes);
    let all = col.name_list(None, false);
    let light = col.name_list(Some(&LazyThemeFilter::Light), false);
    let dark = col.name_list(Some(&LazyThemeFilter::Dark), false);
    assert_eq!(light, vec!["Solarized Light", "Alabaster"]);
    assert_eq!(dark, vec!["Nord", "Dracula"]);
    // The filtered lists are subsets of the unfiltered one and every name
    // materializes with the matching flag.
    for n in &light {
        assert!(all.contains(n));
        assert!(col.by_name(n, None).unwrap().into_theme().is_light);
    }
    for n in &dark {
        assert!(all.contains(n));
        assert!(!col.by_name(n, None).unwrap().into_theme().is_light);
    }
    assert_eq!(light.len() + dark.len(), all.len());
}

#[test]
fn filter_predicates() {
    assert!(LazyThemeFilter::All.is_none());
    assert!(!LazyThemeFilter::Light.is_none());
    assert!(LazyThemeFilter::All.matches(true));
    assert!(LazyThemeFilter::All.matches(false));
    assert!(LazyThemeFilter::Light.matches(true));
    assert!(!LazyThemeFilter::Light.matches(false));
    assert!(LazyThemeFilter::Dark.matches(false));
    assert!(!LazyThemeFilter::Dark.matches(true));
    assert!(LazyThemeFilter::default().is_none());
}

#[test]
fn rand_honors_filter() {
    let bytes = sample_bundle();
    let col = Collection::new(&bytes);
    for _ in 0..20 {
        let any = col.rand(None).unwrap();
        assert!(["Nord", "Solarized Light", "Dracula", "Alabaster"].contains(&any.name));
        let light = col.rand(Some(&LazyThemeFilter::Light)).unwrap();
        assert!(light.is_light);
        let dark = col.rand(Some(&LazyThemeFilter::Dark)).unwrap();
        assert!(!dark.is_light);
    }
}

#[test]
fn rand_empty_collection() {
    let themes: Vec<Theme> = Vec::new();
    let bytes = build_theme_bundle(&themes);
    let col = Collection::new(&bytes);
    assert_eq!(col.count, 0);
    assert!(col.rand(None).is_none());
    assert!(col.rand(Some(&LazyThemeFilter::Light)).is_none());
}

#[test]
fn truncated_trailing_record_stops_iteration() {
    let bytes = sample_bundle();
    // Cut the last record short: iteration stops early, earlier records
    // still come through.
    let cut = &bytes[..bytes.len() - 10];
    let col = Collection::new(cut);
    assert_eq!(col.count, 4);
    assert!(col.get(3).is_none());
    let mut it = col.iter();
    let mut n = 0;
    while let Some(_) = it.next() {
        n += 1;
    }
    assert_eq!(n, 3);
}

#[test]
fn collection_fuzzy_search_resolves() {
    let bytes = sample_bundle();
    let col = Collection::new(&bytes);
    let hit = col.fuzzy_search("drakula", None).unwrap();
    assert_eq!(hit.name, "Dracula");
    let hit2 = col.fuzzy_search("solarized", None).unwrap();
    assert_eq!(hit2.name, "Solarized Light");
    // Under a dark filter the light theme is not a candidate.
    let hit3 = col.fuzzy_search("solarized", Some(&LazyThemeFilter::Dark)).unwrap();
    assert_ne!(hit3.name, "Solarized Light");
    // An empty collection yields nothing.
    let none: Vec<Theme> = Vec::new();
    let nb = build_theme_bundle(&none);
    let empty = Collection::new(&nb);
    assert!(empty.fuzzy_search("anything", None).is_none());
}
