//! The terminal configuration color model: the named blocks that a config
//! file holds, building such a block from a derived scheme, and building a
//! theme from such a block.
//!
//! These are the plain data types; the (de)serialization of a config file
//! happens outside the library, which only fills and reads the fields.

use crate::color::{Color, css_bytes, spec_valid_css, spec_css_color};
use crate::error::{ThemeError, missing_field};
use crate::scheme::{self, ColorScheme, dim_result, dim_next, spec_is_light, scheme_matches, spec_canonical};
use crate::theme::Theme;
use vstd::prelude::*;
use vstd::string::StringSliceAdditionalSpecFns;
use vstd::utf8::encode_utf8;

verus! {

/// The primary color pair of a config, with the two derived foregrounds.
#[derive(Debug, Clone)]
pub struct PrimaryColors {
    pub background: Option<String>,
    pub foreground: Option<String>,
    pub dim_foreground: Option<String>,
    pub bright_foreground: Option<String>,
}

/// The cursor colors of a config.
#[derive(Debug, Clone)]
pub struct CursorColors {
    pub text: Option<String>,
    pub cursor: Option<String>,
}

/// The selection colors of a config.
#[derive(Debug, Clone)]
pub struct SelectionColors {
    pub text: Option<String>,
    pub background: Option<String>,
}

/// One ANSI block of a config.
#[derive(Debug, Clone)]
pub struct AnsiColors {
    pub black: Option<String>,
    pub red: Option<String>,
    pub green: Option<String>,
    pub yellow: Option<String>,
    pub blue: Option<String>,
    pub magenta: Option<String>,
    pub cyan: Option<String>,
    pub white: Option<String>,
}

/// An extension color under a numeric index.
#[derive(Debug, Clone)]
pub struct IndexedColor {
    pub index: u8,
    pub color: String,
}

/// A font family choice of a config.
#[derive(Debug, Clone)]
pub struct FontInner {
    pub family: Option<String>,
}

/// The font block of a config.
#[derive(Debug, Clone)]
pub struct Font {
    pub normal: Option<FontInner>,
}

/// The whole color section of a config.
#[derive(Debug, Clone)]
pub struct Colors {
    pub primary: Option<PrimaryColors>,
    pub cursor: Option<CursorColors>,
    pub selection: Option<SelectionColors>,
    pub normal: Option<AnsiColors>,
    pub bright: Option<AnsiColors>,
    pub dim: Option<AnsiColors>,
    pub indexed_colors: Vec<IndexedColor>,
}

/// The string holds exactly the CSS rendering of the color.
pub open spec fn is_css_of(s: String, c: Color) -> bool {
    encode_utf8(s@) == css_bytes(c)
}

/// The option holds exactly the CSS rendering of the color.
pub open spec fn some_css_of(s: Option<String>, c: Color) -> bool {
    s matches Some(t) && is_css_of(t, c)
}

/// The block renders the eight stored colors of the palette.
pub open spec fn ansi_css_of(r: AnsiColors, a: scheme::AnsiColors) -> bool {
    &&& some_css_of(r.black, a.black)
    &&& some_css_of(r.red, a.red)
    &&& some_css_of(r.green, a.green)
    &&& some_css_of(r.yellow, a.yellow)
    &&& some_css_of(r.blue, a.blue)
    &&& some_css_of(r.magenta, a.magenta)
    &&& some_css_of(r.cyan, a.cyan)
    &&& some_css_of(r.white, a.white)
}

impl AnsiColors {
    /// Renders the eight stored colors of a derived palette; the accents
    /// ride along separately as indexed colors.
    pub fn from_color_scheme_ansi(ansi: &scheme::AnsiColors) -> (r: AnsiColors)
        ensures
            ansi_css_of(r, *ansi),
    {
        AnsiColors {
            black: Some(ansi.black.to_css()),
            red: Some(ansi.red.to_css()),
            green: Some(ansi.green.to_css()),
            yellow: Some(ansi.yellow.to_css()),
            blue: Some(ansi.blue.to_css()),
            magenta: Some(ansi.magenta.to_css()),
            cyan: Some(ansi.cyan.to_css()),
            white: Some(ansi.white.to_css()),
        }
    }
}

impl Colors {
    /// Renders a derived scheme as a config color section: primary pair
    /// with the derived foreground shades, cursor and selection pairs, the
    /// three ANSI blocks (the dim block is memoized on the scheme), and the
    /// two accents as indexed extension colors.
    pub fn from_color_scheme(cs: &mut ColorScheme) -> (r: Colors)
        ensures
            *final(cs) == dim_next(*old(cs), None),
            r.primary matches Some(p) && {
                &&& some_css_of(p.background, old(cs).background@[1])
                &&& some_css_of(p.foreground, old(cs).foreground@[1])
                &&& some_css_of(p.dim_foreground, old(cs).foreground@[2])
                &&& some_css_of(p.bright_foreground, old(cs).foreground@[0])
            },
            r.cursor matches Some(cu) && some_css_of(cu.cursor, old(cs).cursor.bg) && some_css_of(
                cu.text,
                old(cs).cursor.fg,
            ),
            r.selection matches Some(se) && some_css_of(se.background, old(cs).selection.bg)
                && some_css_of(se.text, old(cs).selection.fg),
            r.normal matches Some(n) && ansi_css_of(n, old(cs).base),
            r.bright matches Some(b) && ansi_css_of(b, old(cs).bright),
            r.dim matches Some(d) && ansi_css_of(d, dim_result(*old(cs), None)),
            r.indexed_colors@.len() == 2,
            r.indexed_colors@[0].index == 16 && is_css_of(
                r.indexed_colors@[0].color,
                old(cs).base.orange,
            ),
            r.indexed_colors@[1].index == 17 && is_css_of(
                r.indexed_colors@[1].color,
                old(cs).base.pink,
            ),
    {
        let dim = cs.dim(None);
        let mut indexed: Vec<IndexedColor> = Vec::new();
        indexed.push(IndexedColor { index: 16, color: cs.base.orange.to_css() });
        indexed.push(IndexedColor { index: 17, color: cs.base.pink.to_css() });
        Colors {
            primary: Some(
                PrimaryColors {
                    background: Some(cs.background[1].to_css()),
                    foreground: Some(cs.foreground[1].to_css()),
                    dim_foreground: Some(cs.foreground[2].to_css()),
                    bright_foreground: Some(cs.foreground[0].to_css()),
                },
            ),
            cursor: Some(
                CursorColors { cursor: Some(cs.cursor.bg.to_css()), text: Some(cs.cursor.fg.to_css()) },
            ),
            selection: Some(
                SelectionColors {
                    background: Some(cs.selection.bg.to_css()),
                    text: Some(cs.selection.fg.to_css()),
                },
            ),
            normal: Some(AnsiColors::from_color_scheme_ansi(&cs.base)),
            bright: Some(AnsiColors::from_color_scheme_ansi(&cs.bright)),
            dim: Some(AnsiColors::from_color_scheme_ansi(&dim)),
            indexed_colors: indexed,
        }
    }
}

/// Every required field of the color section is present and every color
/// string is valid CSS hex.
pub open spec fn colors_complete(c: Colors) -> bool {
    &&& c.primary matches Some(p) && {
        &&& p.background matches Some(s) && spec_valid_css(encode_utf8(s@))
        &&& p.foreground matches Some(s) && spec_valid_css(encode_utf8(s@))
    }
    &&& c.selection matches Some(se) && {
        &&& se.background matches Some(s) && spec_valid_css(encode_utf8(s@))
        &&& se.text matches Some(s) && spec_valid_css(encode_utf8(s@))
    }
    &&& c.cursor matches Some(cu) && {
        &&& cu.cursor matches Some(s) && spec_valid_css(encode_utf8(s@))
        &&& cu.text matches Some(s) && spec_valid_css(encode_utf8(s@))
    }
    &&& c.normal matches Some(n) && ansi_complete(n)
    &&& c.bright matches Some(b) && ansi_complete(b)
}

/// Every field of an ANSI block is present and valid CSS hex.
pub open spec fn ansi_complete(a: AnsiColors) -> bool {
    &&& a.black matches Some(s) && spec_valid_css(encode_utf8(s@))
    &&& a.red matches Some(s) && spec_valid_css(encode_utf8(s@))
    &&& a.green matches Some(s) && spec_valid_css(encode_utf8(s@))
    &&& a.yellow matches Some(s) && spec_valid_css(encode_utf8(s@))
    &&& a.blue matches Some(s) && spec_valid_css(encode_utf8(s@))
    &&& a.magenta matches Some(s) && spec_valid_css(encode_utf8(s@))
    &&& a.cyan matches Some(s) && spec_valid_css(encode_utf8(s@))
    &&& a.white matches Some(s) && spec_valid_css(encode_utf8(s@))
}

/// The color a config string names.
pub open spec fn css_of_field(s: Option<String>) -> Color {
    spec_css_color(encode_utf8(s->0@))
}

/// The eight colors of a complete ANSI block, in canonical order.
pub open spec fn ansi_colors_of(a: AnsiColors) -> Seq<Color> {
    seq![
        css_of_field(a.black),
        css_of_field(a.red),
        css_of_field(a.green),
        css_of_field(a.yellow),
        css_of_field(a.blue),
        css_of_field(a.magenta),
        css_of_field(a.cyan),
        css_of_field(a.white),
    ]
}

/// The 22 canonical colors of a complete color section, in wire order.
pub open spec fn colors_of_config(c: Colors) -> Seq<Color> {
    seq![
        css_of_field(c.primary->0.background),
        css_of_field(c.primary->0.foreground),
        css_of_field(c.selection->0.background),
        css_of_field(c.selection->0.text),
        css_of_field(c.cursor->0.cursor),
        css_of_field(c.cursor->0.text),
    ] + ansi_colors_of(c.normal->0) + ansi_colors_of(c.bright->0)
}

/// Reads one required color field: the field must be present and name a
/// valid CSS hex color.
fn read_color(s: &Option<String>, path: &str, out: &mut Vec<Color>) -> (r: Result<
    (),
    ThemeError,
>)
    ensures
        r is Ok <==> (s matches Some(t) && spec_valid_css(encode_utf8(t@))),
        r is Ok ==> final(out)@ == old(out)@.push(css_of_field(*s)),
        r is Err ==> final(out)@ == old(out)@,
        r matches Err(e) ==> ((s is None && (e matches ThemeError::MissingField(p) && p@
            == path@)) || (s matches Some(t) && !spec_valid_css(encode_utf8(t@)) && (e
            matches ThemeError::InvalidColor(v) && v@ == t@))),
{
    match s {
        Some(t) => {
            if Color::is_valid_css_str(t.as_str()) {
                let c = Color::from_css(t.as_str());
                out.push(c);
                Ok(())
            } else {
                Err(ThemeError::InvalidColor(t.clone()))
            }
        },
        None => Err(missing_field(path)),
    }
}

/// Reads the eight colors of an ANSI block in canonical order.  The path
/// names are only used in the errors.
fn read_ansi(a: &AnsiColors, out: &mut Vec<Color>) -> (r: Result<(), ThemeError>)
    ensures
        r is Ok <==> ansi_complete(*a),
        r is Ok ==> final(out)@ == old(out)@ + ansi_colors_of(*a),
        r matches Err(e) ==> (e is MissingField || e is InvalidColor),
{
    let ghost start = out@;
    read_color(&a.black, "colors.ansi.black", out)?;
    read_color(&a.red, "colors.ansi.red", out)?;
    read_color(&a.green, "colors.ansi.green", out)?;
    read_color(&a.yellow, "colors.ansi.yellow", out)?;
    read_color(&a.blue, "colors.ansi.blue", out)?;
    read_color(&a.magenta, "colors.ansi.magenta", out)?;
    read_color(&a.cyan, "colors.ansi.cyan", out)?;
    read_color(&a.white, "colors.ansi.white", out)?;
    proof {
        assert(out@ =~= start + ansi_colors_of(*a));
    }
    Ok(())
}

/// Builds a theme from a parsed config color section.  Succeeds exactly
/// when every required field is present and holds a valid CSS hex color;
/// the scheme is then derived from the 22 colors in wire order and
/// classified by the background lightness.
pub fn theme_from_colors(name: String, colors: &Colors) -> (r: Result<Theme, ThemeError>)
    ensures
        r is Ok <==> colors_complete(*colors),
        r matches Ok(t) ==> {
            &&& t.name == name
            &&& scheme_matches(t.colors, colors_of_config(*colors))
            &&& spec_canonical(t.colors) == colors_of_config(*colors)
            &&& t.is_light == spec_is_light(colors_of_config(*colors)[0])
        },
        r matches Err(e) ==> (e is MissingField || e is InvalidColor),
{
    let mut out: Vec<Color> = Vec::new();
    let primary = match &colors.primary {
        Some(p) => p,
        None => {
            return Err(missing_field("colors.primary"));
        },
    };
    read_color(&primary.background, "colors.primary.background", &mut out)?;
    read_color(&primary.foreground, "colors.primary.foreground", &mut out)?;
    let selection = match &colors.selection {
        Some(s) => s,
        None => {
            return Err(missing_field("colors.selection"));
        },
    };
    read_color(&selection.background, "colors.selection.background", &mut out)?;
    read_color(&selection.text, "colors.selection.text", &mut out)?;
    let cursor = match &colors.cursor {
        Some(c) => c,
        None => {
            return Err(missing_field("colors.cursor"));
        },
    };
    read_color(&cursor.cursor, "colors.cursor.cursor", &mut out)?;
    read_color(&cursor.text, "colors.cursor.text", &mut out)?;
    let normal = match &colors.normal {
        Some(n) => n,
        None => {
            return Err(missing_field("colors.normal"));
        },
    };
    read_ansi(normal, &mut out)?;
    let bright = match &colors.bright {
        Some(b) => b,
        None => {
            return Err(missing_field("colors.bright"));
        },
    };
    read_ansi(bright, &mut out)?;
    proof {
        assert(out@ =~= colors_of_config(*colors));
    }
    let scheme = ColorScheme::from_color_slice(out.as_slice());
    Ok(Theme::new(name, scheme))
}

} // verus!
