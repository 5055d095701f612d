use recol::color::Color;
use recol::scheme::ColorScheme;
use recol::theme::Theme;
use recol::ThemeError;

fn sample_colors(bg: Color, fg: Color) -> Vec<Color> {
    let mut v = vec![
        bg,
        fg,
        Color::from_hex(0x808080),
        Color::from_hex(0xf0f0f0),
        Color::from_hex(0x00ffff),
        Color::from_hex(0x101010),
    ];
    for i in 0..16u32 {
        v.push(Color::from_hex(0x111111 + i * 0x050301));
    }
    v
}

fn sample_theme(name: &str, bg: Color) -> Theme {
    let colors = sample_colors(bg, Color::from_hex(0xd8d8d8));
    let scheme = ColorScheme::from_color_slice(&colors);
    Theme::new(name.to_string(), scheme)
}

#[test]
fn classification_boundary_is_dark() {
    // HSL lightness of exactly 50 percent classifies as dark.
    let t = sample_theme("edge", Color::from_rgb(255, 0, 0));
    assert!(!t.is_light);
    // Just above the boundary classifies as light.
    let t2 = sample_theme("edge2", Color::from_rgb(255, 1, 1));
    assert!(t2.is_light);
    // A plainly dark and a plainly light background.
    assert!(!sample_theme("dark", Color::from_hex(0x101418)).is_light);
    assert!(sample_theme("light", Color::from_hex(0xfafafa)).is_light);
}

#[test]
fn round_trip_preserves_theme() {
    let t = sample_theme("Gruvbox Dark", Color::from_hex(0x282828));
    let bytes = t.to_bytes();
    let u = Theme::from_bytes(&bytes).unwrap();
    assert_eq!(u.name, t.name);
    assert_eq!(u.is_light, t.is_light);
    let a = t.colors.to_colors_array();
    let b = u.colors.to_colors_array();
    assert_eq!(a, b);
    // The re-encoded record is identical.
    assert_eq!(u.to_bytes(), bytes);
}

#[test]
fn record_layout() {
    let t = sample_theme("Ab", Color::from_hex(0x282828));
    let bytes = t.to_bytes();
    assert_eq!(t.size(), bytes.len());
    assert_eq!(bytes.len(), 2 + 2 + 66);
    assert_eq!(bytes[0], 2);
    assert_eq!(&bytes[1..3], b"Ab");
    assert_eq!(bytes[3], 0);
    // The first stored color is the background.
    assert_eq!(&bytes[4..7], &[0x28, 0x28, 0x28]);
}

#[test]
fn decode_too_short() {
    assert_eq!(Theme::from_bytes(&[]).unwrap_err(), ThemeError::TooShort);
    assert_eq!(Theme::from_bytes(&[3]).unwrap_err(), ThemeError::TooShort);
}

#[test]
fn decode_invalid_length() {
    // Claims a 5-byte name but the buffer cannot hold the palette.
    let buf = vec![5u8; 30];
    assert_eq!(Theme::from_bytes(&buf).unwrap_err(), ThemeError::InvalidLength);
}

#[test]
fn decode_invalid_utf8() {
    let t = sample_theme("ab", Color::from_hex(0x282828));
    let mut bytes = t.to_bytes();
    bytes[1] = 0xff;
    bytes[2] = 0xfe;
    assert_eq!(Theme::from_bytes(&bytes).unwrap_err(), ThemeError::InvalidUtf8);
}

#[test]
fn derivation_backgrounds() {
    let bg = Color::from_hex(0x282828);
    let t = sample_theme("x", bg);
    // The base background passes through unchanged in slot 1.
    assert_eq!(t.colors.background[1], bg);
    assert_eq!(t.colors.foreground[1], Color::from_hex(0xd8d8d8));
    // Selection and cursor pass through verbatim.
    assert_eq!(t.colors.selection.bg, Color::from_hex(0x808080));
    assert_eq!(t.colors.selection.fg, Color::from_hex(0xf0f0f0));
    assert_eq!(t.colors.cursor.bg, Color::from_hex(0x00ffff));
    assert_eq!(t.colors.cursor.fg, Color::from_hex(0x101010));
    // For a dark scheme the steps brighten: HSV value grows with the step.
    let v1 = t.colors.background[1].to_hsv().2;
    let v2 = t.colors.background[2].to_hsv().2;
    let v4 = t.colors.background[4].to_hsv().2;
    assert!(v1 < v2 && v2 < v4);
}

#[test]
fn ansi_accents_derived() {
    let t = sample_theme("x", Color::from_hex(0x282828));
    let base = &t.colors.base;
    assert_eq!(base.orange, base.red.blend(&base.yellow, 500));
    assert_eq!(base.pink, base.red.blend(&base.white, 500));
}

#[test]
fn dim_is_memoized_and_idempotent() {
    let t = sample_theme("x", Color::from_hex(0x282828));
    let mut s = t.colors.clone();
    let first = s.dim(None);
    let second = s.dim(None);
    assert_eq!(first.black.to_css(), second.black.to_css());
    assert_eq!(first.white.to_css(), second.white.to_css());
    assert_eq!(first.orange.to_css(), second.orange.to_css());
    // The memoized palette wins even under another factor.
    let third = s.dim(Some(-900));
    assert_eq!(first.black.to_css(), third.black.to_css());
    // The default factor shades every base color toward black.
    assert_eq!(first.white, t.colors.base.white.shade(-150));
}

#[test]
fn comment_is_memoized_and_idempotent() {
    let t = sample_theme("x", Color::from_hex(0x282828));
    let mut s = t.colors.clone();
    let first = s.comment(None);
    let second = s.comment(None);
    assert_eq!(first.to_css(), second.to_css());
    assert_eq!(first, s.foreground[1].blend(&s.background[1], 400));
}

#[test]
fn diff_is_memoized_and_idempotent() {
    let t = sample_theme("x", Color::from_hex(0x282828));
    let mut s = t.colors.clone();
    let first = s.diff();
    let second = s.diff();
    assert_eq!(first.add.to_css(), second.add.to_css());
    assert_eq!(first.text.to_css(), second.text.to_css());
    let bg = s.background[1];
    assert_eq!(first.add, s.base.green.blend(&bg, 200));
    assert_eq!(first.delete, s.base.red.blend(&bg, 200));
    assert_eq!(first.change, s.base.blue.blend(&bg, 200));
    assert_eq!(first.text, s.base.magenta.blend(&bg, 300));
}

#[test]
fn code_selection_is_memoized_and_idempotent() {
    let t = sample_theme("x", Color::from_hex(0x282828));
    let mut s = t.colors.clone();
    let first = s.code_selection(None);
    let second = s.code_selection(None);
    assert_eq!(first[0].to_css(), second[0].to_css());
    assert_eq!(first[1].to_css(), second[1].to_css());
    let bg = s.background[1];
    assert_eq!(first[0], bg.blend(&s.foreground[1], 150));
    // The second color uses the factor scaled by 1.6.
    assert_eq!(first[1], bg.blend(&s.cursor.bg, 240));
}

#[test]
fn prepare_fills_all_slots() {
    let t = sample_theme("x", Color::from_hex(0x282828));
    let mut s = t.colors.clone();
    s.prepare(None, None, None);
    assert!(s.dim.is_some());
    assert!(s.comment.is_some());
    assert!(s.diff.is_some());
    assert!(s.code_selection.is_some());
}

#[test]
fn scheme_bytes_round_trip() {
    let t = sample_theme("x", Color::from_hex(0x282828));
    let bytes = t.colors.to_bytes();
    assert_eq!(bytes.len(), 66);
    let s = ColorScheme::from_bytes(&bytes);
    assert_eq!(s.to_bytes(), bytes);
}
