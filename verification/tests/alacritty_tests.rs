use recol::alacritty::{theme_from_colors, AnsiColors, Colors, CursorColors, PrimaryColors, SelectionColors};
use recol::ThemeError;

fn full_ansi(base: &str) -> AnsiColors {
    AnsiColors {
        black: Some(format!("#00000{base}")),
        red: Some("#c91b00".to_string()),
        green: Some("#00c200".to_string()),
        yellow: Some("#c7c400".to_string()),
        blue: Some("#2225c4".to_string()),
        magenta: Some("#ca30c7".to_string()),
        cyan: Some("#00c5c7".to_string()),
        white: Some("#ffffff".to_string()),
    }
}

fn full_colors() -> Colors {
    Colors {
        primary: Some(PrimaryColors {
            background: Some("#282828".to_string()),
            foreground: Some("#d8d8d8".to_string()),
            dim_foreground: None,
            bright_foreground: None,
        }),
        cursor: Some(CursorColors {
            cursor: Some("#00ffff".to_string()),
            text: Some("#101010".to_string()),
        }),
        selection: Some(SelectionColors {
            background: Some("#808080".to_string()),
            text: Some("#f0f0f0".to_string()),
        }),
        normal: Some(full_ansi("0")),
        bright: Some(full_ansi("1")),
        dim: None,
        indexed_colors: Vec::new(),
    }
}

#[test]
fn builds_theme_from_complete_config() {
    let t = theme_from_colors("Gruvbox".to_string(), &full_colors()).unwrap();
    assert_eq!(t.name, "Gruvbox");
    assert!(!t.is_light);
    assert_eq!(t.colors.background[1].to_css(), "#282828");
    assert_eq!(t.colors.base.red.to_css(), "#c91b00");
    assert_eq!(t.colors.cursor.bg.to_css(), "#00ffff");
}

#[test]
fn missing_field_names_the_path() {
    let mut c = full_colors();
    c.normal = None;
    match theme_from_colors("x".to_string(), &c) {
        Err(ThemeError::MissingField(p)) => assert_eq!(p, "colors.normal"),
        other => panic!("expected a missing-field error, got {:?}", other),
    }
    let mut c2 = full_colors();
    c2.primary.as_mut().unwrap().foreground = None;
    match theme_from_colors("x".to_string(), &c2) {
        Err(ThemeError::MissingField(p)) => assert_eq!(p, "colors.primary.foreground"),
        other => panic!("expected a missing-field error, got {:?}", other),
    }
}

#[test]
fn invalid_color_is_reported() {
    let mut c = full_colors();
    c.cursor.as_mut().unwrap().cursor = Some("not-a-color".to_string());
    match theme_from_colors("x".to_string(), &c) {
        Err(ThemeError::InvalidColor(s)) => assert_eq!(s, "not-a-color"),
        other => panic!("expected an invalid-color error, got {:?}", other),
    }
}

#[test]
fn config_block_from_scheme() {
    let t = theme_from_colors("x".to_string(), &full_colors()).unwrap();
    let mut scheme = t.colors.clone();
    let block = Colors::from_color_scheme(&mut scheme);
    let primary = block.primary.unwrap();
    assert_eq!(primary.background.unwrap(), "#282828");
    assert_eq!(primary.foreground.unwrap(), "#d8d8d8");
    let normal = block.normal.unwrap();
    assert_eq!(normal.red.unwrap(), "#c91b00");
    // The dim block is the base palette shaded toward black.
    let dim = block.dim.unwrap();
    assert_eq!(
        dim.red.unwrap(),
        t.colors.base.red.shade(-150).to_css()
    );
    // The two accents ride along as indexed extension colors.
    assert_eq!(block.indexed_colors.len(), 2);
    assert_eq!(block.indexed_colors[0].index, 16);
    assert_eq!(
        block.indexed_colors[0].color,
        t.colors.base.orange.to_css()
    );
    assert_eq!(block.indexed_colors[1].index, 17);
    assert_eq!(block.indexed_colors[1].color, t.colors.base.pink.to_css());
    // The scheme now carries the memoized dim palette.
    assert!(scheme.dim.is_some());
}
