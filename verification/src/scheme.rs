//! The palette-derivation engine: a fixed ANSI palette and the color scheme
//! derived from 22 canonical input colors (background, foreground, selection
//! pair, cursor pair, 8 base and 8 bright ANSI colors).

use crate::color::{
    Color, spec_blend, spec_brighten, spec_hsl_light, clamp_int, lemma_blend_chan_cap,
};
use vstd::slice::slice_subrange;
use vstd::prelude::*;

verus! {

/// Number of ANSI colors per variant.
pub const ANSI_NC: usize = 8;
/// Byte size of the 8 stored ANSI colors.
pub const ANSI_SIZE: usize = 24;
/// Number of canonical colors of a scheme: background, foreground, the
/// selection and cursor pairs, and the two ANSI variants.
pub const COLOR_SCHEME_NC: usize = 22;
/// Byte size of a serialized scheme.
pub const COLOR_SCHEME_SIZE: usize = 66;

/// A 10-slot terminal palette: the 8 canonical ANSI colors and the two
/// derived accents.  The accents are always re-derived from the other 8:
/// orange is red blended halfway toward yellow, pink is red blended halfway
/// toward white.
#[derive(Clone, Copy, Debug, PartialEq, Eq, Structural)]
pub struct AnsiColors {
    pub black: Color,
    pub red: Color,
    pub green: Color,
    pub yellow: Color,
    pub blue: Color,
    pub magenta: Color,
    pub cyan: Color,
    pub white: Color,
    pub orange: Color,
    pub pink: Color,
}

/// The selection colors of a scheme, passed through from the input.
#[derive(Clone, Copy, Debug, PartialEq, Eq, Structural)]
pub struct SelectionColors {
    pub bg: Color,
    pub fg: Color,
}

/// The cursor colors of a scheme, passed through from the input.
#[derive(Clone, Copy, Debug, PartialEq, Eq, Structural)]
pub struct CursorColors {
    pub bg: Color,
    pub fg: Color,
}

/// Diff colors: the base green/red/blue/magenta blended toward the
/// background.
#[derive(Clone, Copy, Debug, PartialEq, Eq, Structural)]
pub struct DiffColors {
    pub add: Color,
    pub delete: Color,
    pub change: Color,
    pub text: Color,
}

/// The ANSI palette derived from 8 input colors in canonical order
/// (black, red, green, yellow, blue, magenta, cyan, white).
pub open spec fn spec_ansi_from(c: Seq<Color>) -> AnsiColors {
    AnsiColors {
        black: c[0],
        red: c[1],
        green: c[2],
        yellow: c[3],
        blue: c[4],
        magenta: c[5],
        cyan: c[6],
        white: c[7],
        orange: spec_blend(c[1], c[3], 500),
        pink: spec_blend(c[1], c[7], 500),
    }
}

/// The 8 stored colors of a palette, in canonical order.
pub open spec fn spec_ansi_seq(a: AnsiColors) -> Seq<Color> {
    seq![a.black, a.red, a.green, a.yellow, a.blue, a.magenta, a.cyan, a.white]
}

/// The `[r, g, b]` bytes of each color in turn.
pub open spec fn colors_bytes(cs: Seq<Color>) -> Seq<u8> {
    Seq::new((3 * cs.len()) as nat, |i: int|
        if i % 3 == 0 {
            cs[i / 3].r
        } else if i % 3 == 1 {
            cs[i / 3].g
        } else {
            cs[i / 3].b
        }
    )
}

/// The colors read from consecutive 3-byte groups.
pub open spec fn colors_of_bytes(b: Seq<u8>) -> Seq<Color> {
    Seq::new((b.len() / 3) as nat, |i: int|
        Color { r: b[3 * i], g: b[3 * i + 1], b: b[3 * i + 2] }
    )
}

/// Reading back the bytes of a color sequence gives the same sequence.
pub proof fn lemma_colors_bytes_round_trip(cs: Seq<Color>)
    ensures
        colors_of_bytes(colors_bytes(cs)) =~= cs,
{
    let b = colors_bytes(cs);
    assert(b.len() == 3 * cs.len());
    assert forall|i: int| 0 <= i < cs.len() implies colors_of_bytes(b)[i] == cs[i] by {
        assert((3 * i) % 3 == 0 && (3 * i) / 3 == i) by (nonlinear_arith);
        assert((3 * i + 1) % 3 == 1 && (3 * i + 1) / 3 == i) by (nonlinear_arith);
        assert((3 * i + 2) % 3 == 2 && (3 * i + 2) / 3 == i) by (nonlinear_arith);
    }
}

/// Appends the bytes of `cs` to `out`, in canonical order.
pub fn push_colors_bytes(out: &mut Vec<u8>, cs: &Vec<Color>)
    ensures
        final(out)@ == old(out)@ + colors_bytes(cs@),
{
    let n = cs.len();
    let mut i: usize = 0;
    while i < n
        invariant
            n == cs@.len(),
            i <= n,
            out@ =~= old(out)@ + colors_bytes(cs@).take(3 * i),
        decreases n - i,
    {
        let c = cs[i];
        out.push(c.r);
        out.push(c.g);
        out.push(c.b);
        proof {
            let full = colors_bytes(cs@);
            assert((3 * i) % 3 == 0 && (3 * i) / 3 == i as int) by (nonlinear_arith);
            assert((3 * i + 1) % 3 == 1 && (3 * i + 1) / 3 == i as int) by (nonlinear_arith);
            assert((3 * i + 2) % 3 == 2 && (3 * i + 2) / 3 == i as int) by (nonlinear_arith);
            assert(full[3 * i as int] == c.r);
            assert(full[3 * i as int + 1] == c.g);
            assert(full[3 * i as int + 2] == c.b);
            assert(out@ =~= old(out)@ + full.take(3 * (i + 1)));
        }
        i += 1;
    }
    proof {
        assert(colors_bytes(cs@).take(3 * n as int) =~= colors_bytes(cs@));
    }
}

/// Reads `n` colors from the front of a byte slice.
pub fn read_colors(b: &[u8], n: usize) -> (cs: Vec<Color>)
    requires
        b@.len() == 3 * n,
    ensures
        cs@ == colors_of_bytes(b@),
{
    let len = b.len();
    let mut cs: Vec<Color> = Vec::new();
    let mut i: usize = 0;
    let mut j: usize = 0;
    while i < n
        invariant
            b@.len() == 3 * n,
            b@.len() == len,
            i <= n,
            j == 3 * i,
            cs@ =~= colors_of_bytes(b@).take(i as int),
        decreases n - i,
    {
        proof {
            assert(3 * i as int + 3 <= 3 * n) by (nonlinear_arith)
                requires
                    i < n,
            ;
        }
        let c = Color { r: b[j], g: b[j + 1], b: b[j + 2] };
        cs.push(c);
        proof {
            assert(b@.len() / 3 == n as int);
            assert(cs@ =~= colors_of_bytes(b@).take(i + 1));
        }
        i += 1;
        j += 3;
    }
    proof {
        assert(colors_of_bytes(b@).take(n as int) =~= colors_of_bytes(b@));
    }
    cs
}

impl AnsiColors {
    /// Builds the palette from the 8 canonical colors, re-deriving the
    /// orange and pink accents.
    pub fn from_color_slice(c: &[Color]) -> (a: AnsiColors)
        requires
            c@.len() == 8,
        ensures
            a == spec_ansi_from(c@),
    {
        AnsiColors {
            black: c[0],
            red: c[1],
            green: c[2],
            yellow: c[3],
            blue: c[4],
            magenta: c[5],
            cyan: c[6],
            white: c[7],
            orange: c[1].blend(&c[3], 500),
            pink: c[1].blend(&c[7], 500),
        }
    }

    /// Decodes the palette from 24 bytes, 3 per color.
    pub fn from_bytes(b: &[u8]) -> (a: AnsiColors)
        requires
            b@.len() == 24,
        ensures
            a == spec_ansi_from(colors_of_bytes(b@)),
    {
        let cs = read_colors(b, 8);
        AnsiColors::from_color_slice(cs.as_slice())
    }

    /// The 8 stored colors in canonical order; the accents are derived and
    /// never stored.
    pub fn to_colors_array(&self) -> (cs: [Color; 8])
        ensures
            cs@ == spec_ansi_seq(*self),
    {
        let cs = [
            self.black,
            self.red,
            self.green,
            self.yellow,
            self.blue,
            self.magenta,
            self.cyan,
            self.white,
        ];
        proof {
            assert(cs@ =~= spec_ansi_seq(*self));
        }
        cs
    }

    /// The 24 bytes of the 8 stored colors.
    pub fn to_bytes(&self) -> (b: Vec<u8>)
        ensures
            b@ == colors_bytes(spec_ansi_seq(*self)),
    {
        let mut out: Vec<u8> = Vec::new();
        let mut cs: Vec<Color> = Vec::new();
        cs.push(self.black);
        cs.push(self.red);
        cs.push(self.green);
        cs.push(self.yellow);
        cs.push(self.blue);
        cs.push(self.magenta);
        cs.push(self.cyan);
        cs.push(self.white);
        proof {
            assert(cs@ =~= spec_ansi_seq(*self));
        }
        push_colors_bytes(&mut out, &cs);
        out
    }
}

impl Default for AnsiColors {
    /// A standard palette used when no theme colors are given.
    fn default() -> (a: AnsiColors)
        ensures
            a == spec_default_ansi(),
    {
        AnsiColors {
            black: Color::from_hex(0x000000),
            red: Color::from_hex(0xc91b00),
            green: Color::from_hex(0x00c200),
            yellow: Color::from_hex(0xc7c400),
            blue: Color::from_hex(0x2225c4),
            magenta: Color::from_hex(0xca30c7),
            cyan: Color::from_hex(0x00c5c7),
            white: Color::from_hex(0xffffff),
            orange: Color::from_hex(0xc7c400),
            pink: Color::from_hex(0xc91b00),
        }
    }
}

/// A scheme is light when its base background's HSL lightness exceeds 50
/// percent; exactly 50 percent counts as dark.
pub open spec fn spec_is_light(bg: Color) -> bool {
    spec_hsl_light(bg) > 50000
}

/// The polarity of the brighten steps: light schemes step darker.
pub open spec fn polarity(is_light: bool) -> int {
    if is_light {
        -1
    } else {
        1
    }
}

/// The lightness extreme that the steps move away from.
pub open spec fn zero_point(is_light: bool) -> int {
    if is_light {
        0
    } else {
        100000
    }
}

/// The extreme background step.  Near the lightness boundary the step
/// direction flips so the extreme shade does not clip out of range.
pub open spec fn spec_bg0(bg: Color, is_light: bool) -> Color {
    let m = polarity(is_light);
    let z = zero_point(is_light);
    if (spec_hsl_light(bg) + (-4300) * m - z) * (-m) - 2000 < 100000 {
        spec_brighten(bg, -4300 * m)
    } else {
        spec_brighten(bg, 4300 * m)
    }
}

/// The extreme foreground step, with the mirrored boundary guard.
pub open spec fn spec_fg0(fg: Color, is_light: bool) -> Color {
    let m = polarity(is_light);
    let z = zero_point(is_light);
    if (spec_hsl_light(fg) + 6000 * m - z) * (-m) - 2000 > 0 {
        spec_brighten(fg, 6000 * m)
    } else {
        spec_brighten(fg, -6000 * m)
    }
}

/// The five background shades: extreme step, base, then three steps of
/// increasing distance from the base.
pub open spec fn spec_bg_steps(bg: Color, is_light: bool) -> Seq<Color> {
    let m = polarity(is_light);
    seq![
        spec_bg0(bg, is_light),
        bg,
        spec_brighten(bg, 6000 * m),
        spec_brighten(bg, 12000 * m),
        spec_brighten(bg, 23000 * m),
    ]
}

/// The four foreground shades: extreme step, base, then two steps toward
/// the background.
pub open spec fn spec_fg_steps(fg: Color, is_light: bool) -> Seq<Color> {
    let m = polarity(is_light);
    seq![
        spec_fg0(fg, is_light),
        fg,
        spec_brighten(fg, -23000 * m),
        spec_brighten(fg, -44000 * m),
    ]
}

/// The designer-ready palette derived from the 22 canonical colors.  The
/// four optional slots are memoized derived colors, empty until first asked
/// for.
#[derive(Clone, Debug)]
pub struct ColorScheme {
    pub background: [Color; 5],
    pub foreground: [Color; 4],
    pub selection: SelectionColors,
    pub cursor: CursorColors,
    pub base: AnsiColors,
    pub bright: AnsiColors,
    pub dim: Option<AnsiColors>,
    pub diff: Option<DiffColors>,
    pub code_selection: Option<[Color; 2]>,
    pub comment: Option<Color>,
}

/// `s` is exactly the scheme derived from the canonical colors `c`, with
/// no derived slot filled yet.
pub open spec fn scheme_matches(s: ColorScheme, c: Seq<Color>) -> bool {
    let is_light = spec_is_light(c[0]);
    &&& s.background@ == spec_bg_steps(c[0], is_light)
    &&& s.foreground@ == spec_fg_steps(c[1], is_light)
    &&& s.selection == (SelectionColors { bg: c[2], fg: c[3] })
    &&& s.cursor == (CursorColors { bg: c[4], fg: c[5] })
    &&& s.base == spec_ansi_from(c.subrange(6, 14))
    &&& s.bright == spec_ansi_from(c.subrange(14, 22))
    &&& s.dim is None
    &&& s.diff is None
    &&& s.code_selection is None
    &&& s.comment is None
}

/// The canonical 22 colors stored by a scheme, in wire order.
pub open spec fn spec_canonical(s: ColorScheme) -> Seq<Color> {
    seq![
        s.background@[1],
        s.foreground@[1],
        s.selection.bg,
        s.selection.fg,
        s.cursor.bg,
        s.cursor.fg,
    ] + spec_ansi_seq(s.base) + spec_ansi_seq(s.bright)
}

/// The dimmed palette: every stored color shaded by `f`, with the accents
/// re-derived from the shaded colors.
pub open spec fn spec_dim(a: AnsiColors, f: int) -> AnsiColors {
    spec_ansi_from(
        seq![
            crate::color::spec_shade(a.black, f),
            crate::color::spec_shade(a.red, f),
            crate::color::spec_shade(a.green, f),
            crate::color::spec_shade(a.yellow, f),
            crate::color::spec_shade(a.blue, f),
            crate::color::spec_shade(a.magenta, f),
            crate::color::spec_shade(a.cyan, f),
            crate::color::spec_shade(a.white, f),
        ],
    )
}

/// The comment color: the base foreground blended toward the base
/// background by `f` thousandths.
pub open spec fn spec_comment(s: ColorScheme, f: int) -> Color {
    spec_blend(s.foreground@[1], s.background@[1], f)
}

/// The diff colors: fixed blends of the base green/red/blue/magenta toward
/// the background.
pub open spec fn spec_diff(s: ColorScheme) -> DiffColors {
    let bg = s.background@[1];
    DiffColors {
        add: spec_blend(s.base.green, bg, 200),
        delete: spec_blend(s.base.red, bg, 200),
        change: spec_blend(s.base.blue, bg, 200),
        text: spec_blend(s.base.magenta, bg, 300),
    }
}

/// The second code-selection factor: `f` scaled by 1.6, truncating toward
/// zero.
pub open spec fn code_sel_factor(f: int) -> int {
    if f >= 0 {
        f * 16 / 10
    } else {
        -((-f) * 16 / 10)
    }
}

/// The two code-selection colors: the background blended toward the
/// foreground by `f`, and toward the cursor background by `f` scaled 1.6.
pub open spec fn spec_code_selection(s: ColorScheme, f: int) -> Seq<Color> {
    let bg = s.background@[1];
    seq![
        spec_blend(bg, s.foreground@[1], f),
        spec_blend(bg, s.cursor.bg, code_sel_factor(f)),
    ]
}

/// The given factor, or the default when none is given.
pub open spec fn factor_or(f: Option<i64>, d: int) -> int {
    match f {
        Some(v) => v as int,
        None => d,
    }
}

/// What a call of [`ColorScheme::dim`] returns: the memoized palette if one
/// is stored, else the palette freshly dimmed by the factor (default
/// `-150`).
pub open spec fn dim_result(s: ColorScheme, f: Option<i64>) -> AnsiColors {
    match s.dim {
        Some(a) => a,
        None => spec_dim(s.base, factor_or(f, -150)),
    }
}

/// The scheme after a call of [`ColorScheme::dim`]: the slot holds the
/// result and nothing else changes.
pub open spec fn dim_next(s: ColorScheme, f: Option<i64>) -> ColorScheme {
    ColorScheme { dim: Some(dim_result(s, f)), ..s }
}

/// What a call of [`ColorScheme::comment`] returns.
pub open spec fn comment_result(s: ColorScheme, f: Option<i64>) -> Color {
    match s.comment {
        Some(c) => c,
        None => spec_comment(s, factor_or(f, 400)),
    }
}

/// The scheme after a call of [`ColorScheme::comment`].
pub open spec fn comment_next(s: ColorScheme, f: Option<i64>) -> ColorScheme {
    ColorScheme { comment: Some(comment_result(s, f)), ..s }
}

/// What a call of [`ColorScheme::diff`] returns.
pub open spec fn diff_result(s: ColorScheme) -> DiffColors {
    match s.diff {
        Some(d) => d,
        None => spec_diff(s),
    }
}

/// The scheme after a call of [`ColorScheme::diff`].
pub open spec fn diff_next(s: ColorScheme) -> ColorScheme {
    ColorScheme { diff: Some(diff_result(s)), ..s }
}

/// What a call of [`ColorScheme::code_selection`] returns.
pub open spec fn code_sel_result(s: ColorScheme, f: Option<i64>) -> Seq<Color> {
    match s.code_selection {
        Some(p) => p@,
        None => spec_code_selection(s, factor_or(f, 150)),
    }
}

/// Asking for the dimmed palette twice is idempotent: after one call the
/// value is memoized, and a second call, with the same or any other factor,
/// returns the identical palette and leaves the scheme unchanged.
pub proof fn lemma_dim_idempotent(s: ColorScheme, f: Option<i64>, f2: Option<i64>)
    ensures
        dim_result(dim_next(s, f), f2) == dim_result(s, f),
        dim_next(dim_next(s, f), f2) == dim_next(s, f),
{
}

/// Asking for the comment color twice is idempotent.
pub proof fn lemma_comment_idempotent(s: ColorScheme, f: Option<i64>, f2: Option<i64>)
    ensures
        comment_result(comment_next(s, f), f2) == comment_result(s, f),
        comment_next(comment_next(s, f), f2) == comment_next(s, f),
{
}

/// Asking for the diff colors twice is idempotent.
pub proof fn lemma_diff_idempotent(s: ColorScheme)
    ensures
        diff_result(diff_next(s)) == diff_result(s),
        diff_next(diff_next(s)) == diff_next(s),
{
}

/// Asking for the code-selection pair twice is idempotent: once a pair is
/// stored, any later call returns that very pair.
pub proof fn lemma_code_selection_idempotent(
    s: ColorScheme,
    p: [Color; 2],
    f: Option<i64>,
    f2: Option<i64>,
)
    requires
        p@ == code_sel_result(s, f),
    ensures
        code_sel_result(ColorScheme { code_selection: Some(p), ..s }, f2) == p@,
{
}

impl ColorScheme {
    /// Derives the full palette from the 22 canonical colors, in wire
    /// order: background, foreground, selection pair, cursor pair, 8 base
    /// ANSI colors, 8 bright ANSI colors.
    #[verifier::rlimit(50)]
    pub fn from_color_slice(c: &[Color]) -> (s: ColorScheme)
        requires
            c@.len() == 22,
        ensures
            scheme_matches(s, c@),
            spec_canonical(s) == c@,
    {
        let bg = c[0];
        let fg = c[1];
        let (_, _, bg_l) = bg.to_hsl();
        let is_light = bg_l > 50000;
        let m: i64 = if is_light {
            -1
        } else {
            1
        };
        let z: i64 = if is_light {
            0
        } else {
            100000
        };
        proof {
            assert((m == -1 && z == 0) || (m == 1 && z == 100000));
        }

        let bg_guard = if m >= 0 {
            -(bg_l + (-4300) * m - z)
        } else {
            bg_l + (-4300) * m - z
        };
        let bg0 = if bg_guard - 2000 < 100000 {
            bg.brighten(-4300 * m)
        } else {
            bg.brighten(4300 * m)
        };
        proof {
            let gl = bg_l as int;
            let mm = m as int;
            let zz = z as int;
            assert((gl + (-4300) * mm - zz) * (-mm) == bg_guard as int) by (nonlinear_arith)
                requires
                    mm == 1 || mm == -1,
                    bg_guard as int == if mm >= 0 {
                        -(gl + (-4300) * mm - zz)
                    } else {
                        gl + (-4300) * mm - zz
                    },
            ;
        }
        let bg2 = bg.brighten(6000 * m);
        let bg3 = bg.brighten(12000 * m);
        let bg4 = bg.brighten(23000 * m);

        let (_, _, fg_l) = fg.to_hsl();
        let fg_guard = if m >= 0 {
            -(fg_l + 6000 * m - z)
        } else {
            fg_l + 6000 * m - z
        };
        let fg0 = if fg_guard - 2000 > 0 {
            fg.brighten(6000 * m)
        } else {
            fg.brighten(-6000 * m)
        };
        proof {
            let gl = fg_l as int;
            let mm = m as int;
            let zz = z as int;
            assert((gl + 6000 * mm - zz) * (-mm) == fg_guard as int) by (nonlinear_arith)
                requires
                    mm == 1 || mm == -1,
                    fg_guard as int == if mm >= 0 {
                        -(gl + 6000 * mm - zz)
                    } else {
                        gl + 6000 * mm - zz
                    },
            ;
        }
        let fg2 = fg.brighten(-23000 * m);
        let fg3 = fg.brighten(-44000 * m);

        let base = AnsiColors::from_color_slice(slice_subrange(c, 6, 14));
        let bright = AnsiColors::from_color_slice(slice_subrange(c, 14, 22));

        let s = ColorScheme {
            background: [bg0, bg, bg2, bg3, bg4],
            foreground: [fg0, fg, fg2, fg3],
            selection: SelectionColors { bg: c[2], fg: c[3] },
            cursor: CursorColors { bg: c[4], fg: c[5] },
            base,
            bright,
            dim: None,
            diff: None,
            code_selection: None,
            comment: None,
        };
        proof {
            assert(s.background@ =~= spec_bg_steps(c@[0], spec_is_light(c@[0])));
            assert(s.foreground@ =~= spec_fg_steps(c@[1], spec_is_light(c@[0])));
            assert(spec_canonical(s) =~= c@);
        }
        s
    }

    /// Decodes a scheme from its 66 serialized bytes.
    pub fn from_bytes(b: &[u8]) -> (s: ColorScheme)
        requires
            b@.len() == 66,
        ensures
            scheme_matches(s, colors_of_bytes(b@)),
            spec_canonical(s) == colors_of_bytes(b@),
    {
        let cs = read_colors(b, 22);
        ColorScheme::from_color_slice(cs.as_slice())
    }

    /// The canonical 22 colors in wire order.  Derived shades and memoized
    /// slots are never part of the canonical set.
    pub fn to_colors_array(&self) -> (cs: Vec<Color>)
        ensures
            cs@ == spec_canonical(*self),
    {
        let mut cs: Vec<Color> = Vec::new();
        cs.push(self.background[1]);
        cs.push(self.foreground[1]);
        cs.push(self.selection.bg);
        cs.push(self.selection.fg);
        cs.push(self.cursor.bg);
        cs.push(self.cursor.fg);
        cs.push(self.base.black);
        cs.push(self.base.red);
        cs.push(self.base.green);
        cs.push(self.base.yellow);
        cs.push(self.base.blue);
        cs.push(self.base.magenta);
        cs.push(self.base.cyan);
        cs.push(self.base.white);
        cs.push(self.bright.black);
        cs.push(self.bright.red);
        cs.push(self.bright.green);
        cs.push(self.bright.yellow);
        cs.push(self.bright.blue);
        cs.push(self.bright.magenta);
        cs.push(self.bright.cyan);
        cs.push(self.bright.white);
        proof {
            assert(cs@ =~= spec_canonical(*self));
        }
        cs
    }

    /// The 66 bytes of the canonical colors.
    pub fn to_bytes(&self) -> (b: Vec<u8>)
        ensures
            b@ == colors_bytes(spec_canonical(*self)),
    {
        let cs = self.to_colors_array();
        let mut out: Vec<u8> = Vec::new();
        push_colors_bytes(&mut out, &cs);
        out
    }

    /// The dimmed ANSI palette, shading every base color by `shade_f`
    /// thousandths (default `-150`).  Computed once; later calls return the
    /// stored palette and ignore the factor.
    #[verifier::rlimit(30)]
    pub fn dim(&mut self, shade_f: Option<i64>) -> (a: AnsiColors)
        ensures
            a == dim_result(*old(self), shade_f),
            *final(self) == dim_next(*old(self), shade_f),
    {
        match self.dim {
            Some(a) => a,
            None => {
                let f = match shade_f {
                    Some(v) => v,
                    None => -150,
                };
                let b = &self.base;
                let mut shaded: Vec<Color> = Vec::new();
                shaded.push(b.black.shade(f));
                shaded.push(b.red.shade(f));
                shaded.push(b.green.shade(f));
                shaded.push(b.yellow.shade(f));
                shaded.push(b.blue.shade(f));
                shaded.push(b.magenta.shade(f));
                shaded.push(b.cyan.shade(f));
                shaded.push(b.white.shade(f));
                proof {
                    assert(shaded@ =~= seq![
                        crate::color::spec_shade(self.base.black, f as int),
                        crate::color::spec_shade(self.base.red, f as int),
                        crate::color::spec_shade(self.base.green, f as int),
                        crate::color::spec_shade(self.base.yellow, f as int),
                        crate::color::spec_shade(self.base.blue, f as int),
                        crate::color::spec_shade(self.base.magenta, f as int),
                        crate::color::spec_shade(self.base.cyan, f as int),
                        crate::color::spec_shade(self.base.white, f as int),
                    ]);
                }
                let a = AnsiColors::from_color_slice(shaded.as_slice());
                self.dim = Some(a);
                a
            },
        }
    }

    /// The comment color, the base foreground blended toward the base
    /// background by `blend_f` thousandths (default `400`).  Computed once;
    /// later calls return the stored color and ignore the factor.
    pub fn comment(&mut self, blend_f: Option<i64>) -> (c: Color)
        ensures
            c == comment_result(*old(self), blend_f),
            *final(self) == comment_next(*old(self), blend_f),
    {
        match self.comment {
            Some(c) => c,
            None => {
                let f = match blend_f {
                    Some(v) => v,
                    None => 400,
                };
                let c = self.foreground[1].blend(&self.background[1], f);
                self.comment = Some(c);
                c
            },
        }
    }

    /// The diff colors, fixed blends of the base green/red/blue/magenta
    /// toward the background.  Computed once.
    pub fn diff(&mut self) -> (d: DiffColors)
        ensures
            d == diff_result(*old(self)),
            *final(self) == diff_next(*old(self)),
    {
        match self.diff {
            Some(d) => d,
            None => {
                let bg = self.background[1];
                let d = DiffColors {
                    add: self.base.green.blend(&bg, 200),
                    delete: self.base.red.blend(&bg, 200),
                    change: self.base.blue.blend(&bg, 200),
                    text: self.base.magenta.blend(&bg, 300),
                };
                self.diff = Some(d);
                d
            },
        }
    }

    /// The two code-selection highlight colors, the background blended
    /// toward the foreground by `blend_f` thousandths (default `150`) and
    /// toward the cursor background by `blend_f` scaled 1.6.  Computed
    /// once; later calls return the stored pair and ignore the factor.
    pub fn code_selection(&mut self, blend_f: Option<i64>) -> (p: [Color; 2])
        ensures
            p@ == code_sel_result(*old(self), blend_f),
            *final(self) == (ColorScheme { code_selection: Some(p), ..*old(self) }),
    {
        match self.code_selection {
            Some(p) => p,
            None => {
                let f = match blend_f {
                    Some(v) => v,
                    None => 150,
                };
                let fc: i64 = if f < -256000 {
                    -256000
                } else if f > 256000 {
                    256000
                } else {
                    f
                };
                let f2: i64 = if fc >= 0 {
                    fc * 16 / 10
                } else {
                    -((-fc) * 16 / 10)
                };
                let bg = self.background[1];
                let p = [bg.blend(&self.foreground[1], f), bg.blend(&self.cursor.bg, f2)];
                proof {
                    lemma_code_sel_factor_cap(
                        self.background@[1],
                        self.cursor.bg,
                        f as int,
                        fc as int,
                    );
                    assert(p@ =~= spec_code_selection(*self, f as int));
                }
                self.code_selection = Some(p);
                p
            },
        }
    }

    /// Fills all four memoized slots with the given factors.
    pub fn prepare(
        &mut self,
        dim_shade_f: Option<i64>,
        comment_blend_f: Option<i64>,
        code_selection_blend_f: Option<i64>,
    )
        ensures
            final(self).dim is Some,
            final(self).comment is Some,
            final(self).diff is Some,
            final(self).code_selection is Some,
            final(self).background == old(self).background,
            final(self).foreground == old(self).foreground,
            final(self).selection == old(self).selection,
            final(self).cursor == old(self).cursor,
            final(self).base == old(self).base,
            final(self).bright == old(self).bright,
    {
        self.dim(dim_shade_f);
        self.comment(comment_blend_f);
        self.diff();
        self.code_selection(code_selection_blend_f);
    }
}

/// The code-selection blend toward the cursor background gives the same
/// color whether the factor is capped before or after the 1.6 scaling.
proof fn lemma_code_sel_factor_cap(bg: Color, cur: Color, f: int, fc: int)
    requires
        fc == clamp_int(f, -256000, 256000),
    ensures
        spec_blend(bg, cur, code_sel_factor(fc)) == spec_blend(bg, cur, code_sel_factor(f)),
{
    if f > 256000 {
        assert(code_sel_factor(fc) == 409600);
        assert(f * 16 / 10 >= 256000) by (nonlinear_arith)
            requires
                f > 256000,
        ;
        lemma_blend_cap_above(bg, cur, code_sel_factor(f));
        lemma_blend_cap_above(bg, cur, 409600);
    } else if f < -256000 {
        assert(code_sel_factor(fc) == -409600);
        assert((-f) * 16 / 10 >= 256000) by (nonlinear_arith)
            requires
                -f > 256000,
        ;
        lemma_blend_cap_below(bg, cur, code_sel_factor(f));
        lemma_blend_cap_below(bg, cur, -409600);
    }
}

/// Blend factors at or above the cap all give the capped color.
proof fn lemma_blend_cap_above(a: Color, o: Color, f: int)
    requires
        f >= 256000,
    ensures
        spec_blend(a, o, f) == spec_blend(a, o, 256000),
{
    lemma_blend_chan_cap(a.r as int, o.r as int, f);
    lemma_blend_chan_cap(a.g as int, o.g as int, f);
    lemma_blend_chan_cap(a.b as int, o.b as int, f);
}

/// Blend factors at or below the negative cap all give the capped color.
proof fn lemma_blend_cap_below(a: Color, o: Color, f: int)
    requires
        f <= -256000,
    ensures
        spec_blend(a, o, f) == spec_blend(a, o, -256000),
{
    lemma_blend_chan_cap(a.r as int, o.r as int, f);
    lemma_blend_chan_cap(a.g as int, o.g as int, f);
    lemma_blend_chan_cap(a.b as int, o.b as int, f);
}

/// The palette that `AnsiColors::default` returns.
pub open spec fn spec_default_ansi() -> AnsiColors {
    AnsiColors {
        black: Color { r: 0x00, g: 0x00, b: 0x00 },
        red: Color { r: 0xc9, g: 0x1b, b: 0x00 },
        green: Color { r: 0x00, g: 0xc2, b: 0x00 },
        yellow: Color { r: 0xc7, g: 0xc4, b: 0x00 },
        blue: Color { r: 0x22, g: 0x25, b: 0xc4 },
        magenta: Color { r: 0xca, g: 0x30, b: 0xc7 },
        cyan: Color { r: 0x00, g: 0xc5, b: 0xc7 },
        white: Color { r: 0xff, g: 0xff, b: 0xff },
        orange: Color { r: 0xc7, g: 0xc4, b: 0x00 },
        pink: Color { r: 0xc9, g: 0x1b, b: 0x00 },
    }
}

} // verus!
