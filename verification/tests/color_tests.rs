use recol::Color;

#[test]
fn brighten_black_to_white() {
    let c = Color::from_rgb(0, 0, 0).brighten(100_000);
    assert_eq!(c.to_rgb(), (255, 255, 255));
}

#[test]
fn shade_white_to_black() {
    let c = Color::from_rgb(255, 255, 255).shade(-1000);
    assert_eq!(c.to_rgb(), (0, 0, 0));
}

#[test]
fn shade_toward_white() {
    let c = Color::from_rgb(0, 0, 0).shade(1000);
    assert_eq!(c.to_rgb(), (255, 255, 255));
    let half = Color::from_rgb(100, 100, 100).shade(500);
    assert_eq!(half.to_rgb(), (178, 178, 178));
}

#[test]
fn hex_round_trip() {
    let c = Color::from_hex(0x1a2b3c);
    assert_eq!(c.to_rgb(), (0x1a, 0x2b, 0x3c));
    assert_eq!(c.to_hex(), 0x1a2b3c);
    assert_eq!(Color::from_rgb(255, 0, 128).to_hex(), 0xff0080);
}

#[test]
fn css_render_and_parse() {
    let c = Color::from_rgb(0x1a, 0x2b, 0x3c);
    assert_eq!(c.to_css(), "#1a2b3c");
    assert!(Color::is_valid_css_str("#1a2b3c"));
    assert!(Color::is_valid_css_str("1a2b3c"));
    assert!(Color::is_valid_css_str("#FFAA00"));
    assert!(!Color::is_valid_css_str("#1a2b3"));
    assert!(!Color::is_valid_css_str("#1a2b3cd"));
    assert!(!Color::is_valid_css_str("#1a2g3c"));
    assert!(!Color::is_valid_css_str(""));
    let d = Color::from_css("#1a2b3c");
    assert_eq!(d, c);
    let e = Color::from_css("FFAA00");
    assert_eq!(e.to_rgb(), (255, 170, 0));
}

#[test]
fn from_bytes_reads_channels() {
    let b = [7u8, 8, 9];
    let c = Color::from_bytes(&b);
    assert_eq!(c.to_bytes(), [7, 8, 9]);
}

#[test]
fn hsl_lightness_boundary() {
    // max + min == 255 is exactly 50 percent lightness.
    let red = Color::from_rgb(255, 0, 0);
    let (_, _, l) = red.to_hsl();
    assert_eq!(l, 50_000);
    // One step above the boundary.
    let lighter = Color::from_rgb(255, 1, 1);
    let (_, _, l2) = lighter.to_hsl();
    assert!(l2 > 50_000);
}

#[test]
fn hsv_of_primaries() {
    let red = Color::from_rgb(255, 0, 0);
    let (h, s, v) = red.to_hsv();
    assert_eq!((h, s, v), (0, 100_000, 100_000));
    let green = Color::from_rgb(0, 255, 0);
    assert_eq!(green.to_hsv().0, 120_000);
    let blue = Color::from_rgb(0, 0, 255);
    assert_eq!(blue.to_hsv().0, 240_000);
}

#[test]
fn hsv_round_trip_primary() {
    let c = Color::from_hsv(120_000, 100_000, 100_000);
    assert_eq!(c.to_rgb(), (0, 255, 0));
    let gray = Color::from_hsv(0, 0, 50_000);
    assert_eq!(gray.r, gray.g);
    assert_eq!(gray.g, gray.b);
}

#[test]
fn hsl_round_trip_primary() {
    let c = Color::from_hsl(0, 100_000, 50_000);
    assert_eq!(c.to_rgb(), (255, 0, 0));
    let white = Color::from_hsl(123_000, 45_000, 100_000);
    assert_eq!(white.to_rgb(), (255, 255, 255));
}

#[test]
fn rotate_wraps_hue() {
    let red = Color::from_rgb(255, 0, 0);
    let green = red.rotate(120_000);
    assert_eq!(green.to_rgb(), (0, 255, 0));
    let also_green = red.rotate(120_000 - 360_000);
    assert_eq!(also_green.to_rgb(), (0, 255, 0));
}

#[test]
fn saturate_drains_to_gray() {
    let red = Color::from_rgb(255, 0, 0);
    let gray = red.saturate(-100_000);
    assert_eq!(gray.to_rgb(), (255, 255, 255));
    let same = red.saturate(0);
    assert_eq!(same.to_rgb(), (255, 0, 0));
}

#[test]
fn lighten_caps_at_white() {
    let c = Color::from_rgb(10, 20, 30).lighten(100_000);
    assert_eq!(c.to_rgb(), (255, 255, 255));
}

#[test]
fn blend_midpoint() {
    let red = Color::from_rgb(255, 0, 0);
    let yellow = Color::from_rgb(255, 255, 0);
    let orange = red.blend(&yellow, 500);
    assert_eq!(orange.to_rgb(), (255, 128, 0));
    // A zero factor keeps the color; a full factor reaches the target.
    assert_eq!(red.blend(&yellow, 0).to_rgb(), (255, 0, 0));
    assert_eq!(red.blend(&yellow, 1000).to_rgb(), (255, 255, 0));
}

#[test]
fn blend_extrapolates_and_saturates() {
    let a = Color::from_rgb(100, 100, 100);
    let b = Color::from_rgb(110, 110, 110);
    // Factor 2.0 extrapolates past the target.
    assert_eq!(a.blend(&b, 2000).to_rgb(), (120, 120, 120));
    // A huge factor saturates at the byte bounds.
    assert_eq!(a.blend(&b, 1_000_000_000).to_rgb(), (255, 255, 255));
    assert_eq!(a.blend(&b, -1_000_000_000).to_rgb(), (0, 0, 0));
}
