//! The RGB color primitive and its fixed-point color algebra.
//!
//! A color holds one byte per channel.  Hue is measured in thousandths of a
//! degree (`0 ..= 359_999`), saturation, value and lightness in thousandths
//! of a percent (`0 ..= 100_000`), and blend/shade factors in thousandths
//! (`1000` stands for `1.0`).  Every operation is defined by a spec function
//! over the mathematical integers and the executable code is proved to match.

use vstd::arithmetic::div_mod::{
    lemma_div_is_ordered, lemma_div_by_multiple, lemma_div_pos_is_pos,
    lemma_fundamental_div_mod, lemma_small_mod, lemma_mod_add_multiples_vanish,
    lemma_mod_multiples_vanish, lemma_add_mod_noop_right,
};
use vstd::arithmetic::mul::lemma_mul_inequality;
use vstd::prelude::*;
use vstd::string::StringSliceAdditionalSpecFns;
use vstd::utf8::encode_utf8;

verus! {

/// Full scale of saturation, value and lightness: 100 percent.
pub const PCT_SCALE: i64 = 100_000;
/// Full hue circle in thousandths of a degree.
pub const HUE_SCALE: i64 = 360_000;
/// Scale of blend and shade factors: `1000` stands for a factor of `1.0`.
pub const FACTOR_SCALE: i64 = 1000;

/// An RGB color with one byte per channel.
#[derive(Clone, Copy, Debug, PartialEq, Eq, Structural)]
pub struct Color {
    pub r: u8,
    pub g: u8,
    pub b: u8,
}

pub open spec fn max3(a: int, b: int, c: int) -> int {
    if a >= b && a >= c {
        a
    } else if b >= c {
        b
    } else {
        c
    }
}

pub open spec fn min3(a: int, b: int, c: int) -> int {
    if a <= b && a <= c {
        a
    } else if b <= c {
        b
    } else {
        c
    }
}

/// The largest channel of `c`, on the byte scale.
pub open spec fn chan_max(c: Color) -> int {
    max3(c.r as int, c.g as int, c.b as int)
}

/// The smallest channel of `c`, on the byte scale.
pub open spec fn chan_min(c: Color) -> int {
    min3(c.r as int, c.g as int, c.b as int)
}

/// The 24-bit value `0xrrggbb` of a color.
pub open spec fn spec_hex(c: Color) -> int {
    c.r as int * 65536 + c.g as int * 256 + c.b as int
}

/// The color encoded by the low 24 bits of `hex`.
pub open spec fn spec_from_hex(hex: int) -> Color {
    Color {
        r: ((hex / 65536) % 256) as u8,
        g: ((hex / 256) % 256) as u8,
        b: (hex % 256) as u8,
    }
}

impl Color {
    /// Builds a color from one byte per channel.
    pub fn from_rgb(r: u8, g: u8, b: u8) -> (c: Color)
        ensures
            c == (Color { r, g, b }),
    {
        Color { r, g, b }
    }

    /// Builds a color from a 3-byte `[r, g, b]` slice.
    pub fn from_bytes(bytes: &[u8]) -> (c: Color)
        requires
            bytes@.len() == 3,
        ensures
            c == (Color { r: bytes@[0], g: bytes@[1], b: bytes@[2] }),
    {
        Color { r: bytes[0], g: bytes[1], b: bytes[2] }
    }

    /// Builds a color from the low 24 bits of a `0xrrggbb` value.
    pub fn from_hex(hex: u32) -> (c: Color)
        ensures
            c == spec_from_hex(hex as int),
    {
        let r: u32 = (hex / 65536) % 256;
        let g: u32 = (hex / 256) % 256;
        let b: u32 = hex % 256;
        Color { r: r as u8, g: g as u8, b: b as u8 }
    }

    /// The three channels as bytes.
    pub fn to_rgb(&self) -> (rgb: (u8, u8, u8))
        ensures
            rgb == (self.r, self.g, self.b),
    {
        (self.r, self.g, self.b)
    }

    /// The three channels as a 3-byte array.
    pub fn to_bytes(&self) -> (bytes: [u8; 3])
        ensures
            bytes@ == seq![self.r, self.g, self.b],
    {
        let bytes = [self.r, self.g, self.b];
        proof {
            assert(bytes@ =~= seq![self.r, self.g, self.b]);
        }
        bytes
    }

    /// The 24-bit `0xrrggbb` value of the color.
    pub fn to_hex(&self) -> (hex: u32)
        ensures
            hex == spec_hex(*self),
    {
        self.r as u32 * 65536 + self.g as u32 * 256 + self.b as u32
    }
}

/// Hue of a color in thousandths of a degree, by the usual piecewise
/// formula over the dominant channel; gray has hue `0`.
pub open spec fn spec_hue(c: Color) -> int {
    let r = c.r as int;
    let g = c.g as int;
    let b = c.b as int;
    let d = chan_max(c) - chan_min(c);
    if d == 0 {
        0
    } else if chan_max(c) == r {
        if g >= b {
            (g - b) * 60000 / d
        } else {
            360000 - (b - g) * 60000 / d
        }
    } else if chan_max(c) == g {
        if b >= r {
            120000 + (b - r) * 60000 / d
        } else {
            120000 - (r - b) * 60000 / d
        }
    } else {
        if r >= g {
            240000 + (r - g) * 60000 / d
        } else {
            240000 - (g - r) * 60000 / d
        }
    }
}

/// HSV saturation in thousandths of a percent: `delta / max`.
pub open spec fn spec_hsv_sat(c: Color) -> int {
    if chan_max(c) == 0 {
        0
    } else {
        (chan_max(c) - chan_min(c)) * 100000 / chan_max(c)
    }
}

/// HSV value in thousandths of a percent: `max / 255`.
pub open spec fn spec_hsv_val(c: Color) -> int {
    chan_max(c) * 100000 / 255
}

/// HSL lightness in thousandths of a percent: `(max + min) / (2 * 255)`.
pub open spec fn spec_hsl_light(c: Color) -> int {
    (chan_max(c) + chan_min(c)) * 100000 / 510
}

/// HSL saturation in thousandths of a percent:
/// `delta / (1 - |2 * lightness - 1|)`, with gray mapped to `0`.
pub open spec fn spec_hsl_sat(c: Color) -> int {
    let d = chan_max(c) - chan_min(c);
    let den = 255 - abs_int(chan_max(c) + chan_min(c) - 255);
    if d == 0 {
        0
    } else {
        d * 100000 / den
    }
}

pub open spec fn abs_int(x: int) -> int {
    if x >= 0 {
        x
    } else {
        -x
    }
}

pub open spec fn clamp_int(x: int, lo: int, hi: int) -> int {
    if x < lo {
        lo
    } else if x > hi {
        hi
    } else {
        x
    }
}

/// `x / d` rounded half up and clamped to a byte, for `d > 0`.
pub open spec fn round_byte(x: int, d: int) -> int {
    clamp_int((2 * x + d) / (2 * d), 0, 255)
}

/// One channel of the HSV-to-RGB conversion, as a byte.  `n` is the usual
/// phase (5 for red, 3 for green, 1 for blue); `h`, `s`, `v` must already be
/// reduced to their scales.
pub open spec fn spec_from_hsv_chan(h: int, s: int, v: int, n: int) -> int {
    let k60 = (n * 60000 + h) % 360000;
    let w = clamp_int(min3(k60, 240000 - k60, k60), 0, 60000);
    round_byte(255 * v * (6000000000 - s * w), (6000000000 * 100000) as int)
}

/// The color of reduced HSV coordinates.
pub open spec fn spec_from_hsv(h: int, s: int, v: int) -> Color {
    Color {
        r: spec_from_hsv_chan(h, s, v, 5) as u8,
        g: spec_from_hsv_chan(h, s, v, 3) as u8,
        b: spec_from_hsv_chan(h, s, v, 1) as u8,
    }
}

/// One channel of the HSL-to-RGB conversion, as a byte.  `n` is the usual
/// phase (0 for red, 8 for green, 4 for blue).
pub open spec fn spec_from_hsl_chan(h: int, s: int, l: int, n: int) -> int {
    let k30 = (n * 30000 + h) % 360000;
    let m = clamp_int(min3(k30 - 90000, 270000 - k30, k30 - 90000), -30000, 30000);
    let minl = if l <= 100000 - l {
        l
    } else {
        100000 - l
    };
    round_byte(255 * (l * 3000000000 - s * minl * m), (3000000000 * 100000) as int)
}

/// The color of reduced HSL coordinates.
pub open spec fn spec_from_hsl(h: int, s: int, l: int) -> Color {
    Color {
        r: spec_from_hsl_chan(h, s, l, 0) as u8,
        g: spec_from_hsl_chan(h, s, l, 8) as u8,
        b: spec_from_hsl_chan(h, s, l, 4) as u8,
    }
}

/// Reduction of an arbitrary hue argument into `0 ..= 359_999`.
pub open spec fn reduce_hue(h: int) -> int {
    h % 360000
}

proof fn lemma_div_le_one(a: int, d: int)
    requires
        0 <= a <= d,
        0 < d,
    ensures
        0 <= a * 60000 / d <= 60000,
{
    lemma_mul_inequality(a, d, 60000);
    lemma_div_is_ordered(a * 60000, d * 60000, d);
    lemma_div_by_multiple(60000, d);
    lemma_div_pos_is_pos(a * 60000, d);
}

proof fn lemma_scale_div_le(a: int, d: int, s: int)
    requires
        0 <= a <= d,
        0 < d,
        0 < s,
    ensures
        0 <= a * s / d <= s,
{
    lemma_mul_inequality(a, d, s);
    lemma_div_is_ordered(a * s, d * s, d);
    lemma_div_by_multiple(s, d);
    lemma_div_pos_is_pos(a * s, d);
}

impl Color {
    /// HSV coordinates `(hue, saturation, value)` on the fixed-point scales.
    pub fn to_hsv(&self) -> (hsv: (i64, i64, i64))
        ensures
            hsv.0 == spec_hue(*self),
            hsv.1 == spec_hsv_sat(*self),
            hsv.2 == spec_hsv_val(*self),
            0 <= hsv.0 < 360000,
            0 <= hsv.1 <= 100000,
            0 <= hsv.2 <= 100000,
    {
        let r = self.r as u64;
        let g = self.g as u64;
        let b = self.b as u64;
        let mx = if r >= g && r >= b {
            r
        } else if g >= b {
            g
        } else {
            b
        };
        let mn = if r <= g && r <= b {
            r
        } else if g <= b {
            g
        } else {
            b
        };
        let d = mx - mn;

        proof {
            lemma_scale_div_le(mx as int, 255, 100000);
        }
        let v = (mx * 100000 / 255) as i64;

        let s: i64 = if mx == 0 {
            0
        } else {
            proof {
                lemma_scale_div_le(d as int, mx as int, 100000);
            }
            (d * 100000 / mx) as i64
        };

        let h: i64 = if d == 0 {
            0
        } else if mx == r {
            if g >= b {
                proof {
                    lemma_div_le_one((g - b) as int, d as int);
                }
                ((g - b) * 60000 / d) as i64
            } else {
                proof {
                    lemma_div_le_one((b - g) as int, d as int);
                }
                assert((b - g) * 60000 / (d as int) >= 1) by {
                    assert((b - g) as int * 60000 >= d as int) by (nonlinear_arith)
                        requires
                            b as int - g as int >= 1,
                            0 < d <= 255,
                    ;
                    lemma_div_is_ordered(d as int, (b - g) as int * 60000, d as int);
                    lemma_div_by_multiple(1, d as int);
                }
                (360000 - (b - g) * 60000 / d) as i64
            }
        } else if mx == g {
            if b >= r {
                proof {
                    lemma_div_le_one((b - r) as int, d as int);
                }
                (120000 + (b - r) * 60000 / d) as i64
            } else {
                proof {
                    lemma_div_le_one((r - b) as int, d as int);
                }
                (120000 - (r - b) * 60000 / d) as i64
            }
        } else {
            if r >= g {
                proof {
                    lemma_div_le_one((r - g) as int, d as int);
                }
                (240000 + (r - g) * 60000 / d) as i64
            } else {
                proof {
                    lemma_div_le_one((g - r) as int, d as int);
                }
                (240000 - (g - r) * 60000 / d) as i64
            }
        };

        (h, s, v)
    }

    /// HSL coordinates `(hue, saturation, lightness)` on the fixed-point
    /// scales.  The hue is shared with HSV.
    pub fn to_hsl(&self) -> (hsl: (i64, i64, i64))
        ensures
            hsl.0 == spec_hue(*self),
            hsl.1 == spec_hsl_sat(*self),
            hsl.2 == spec_hsl_light(*self),
            0 <= hsl.0 < 360000,
            0 <= hsl.1 <= 100000,
            0 <= hsl.2 <= 100000,
    {
        let r = self.r as u64;
        let g = self.g as u64;
        let b = self.b as u64;
        let mx = if r >= g && r >= b {
            r
        } else if g >= b {
            g
        } else {
            b
        };
        let mn = if r <= g && r <= b {
            r
        } else if g <= b {
            g
        } else {
            b
        };
        let d = mx - mn;

        proof {
            lemma_scale_div_le((mx + mn) as int, 510, 100000);
        }
        let l = ((mx + mn) * 100000 / 510) as i64;

        let s: i64 = if d == 0 {
            0
        } else {
            let den = if mx + mn >= 255 {
                510 - (mx + mn)
            } else {
                mx + mn
            };
            proof {
                lemma_scale_div_le(d as int, den as int, 100000);
            }
            (d * 100000 / den) as i64
        };

        let (h, _, _) = self.to_hsv();
        (h, s, l)
    }
}

/// Reduces an arbitrary hue argument to `0 ..= 359_999`.
fn hue_mod(h: i64) -> (r: u64)
    ensures
        r as int == reduce_hue(h as int),
        r < 360000,
{
    if h >= 0 {
        (h as u64) % 360000
    } else {
        let n: u128 = (-(h as i128)) as u128;
        let m = (n % 360000) as u64;
        proof {
            let hh = h as int;
            let nn = n as int;
            let mm = m as int;
            lemma_fundamental_div_mod(nn, 360000);
            let q = nn / 360000;
            assert(hh == 360000 * (-q) + (-mm));
            lemma_mod_multiples_vanish(-q, -mm, 360000);
            if mm == 0 {
                assert(hh % 360000 == 0);
            } else {
                lemma_mod_add_multiples_vanish(-mm, 360000);
                lemma_small_mod((360000 - mm) as nat, 360000nat);
            }
        }
        if m == 0 {
            0
        } else {
            360000 - m
        }
    }
}

/// Clamps a fixed-point percentage to `0 ..= 100_000`.
fn clamp_pct(x: i64) -> (r: u64)
    ensures
        r as int == clamp_int(x as int, 0, 100000),
{
    if x < 0 {
        0
    } else if x > 100000 {
        100000
    } else {
        x as u64
    }
}

/// One channel of the HSV-to-RGB conversion on reduced coordinates.
fn from_hsv_chan(h: u64, s: u64, v: u64, n: u64) -> (r: u8)
    requires
        h < 360000,
        s <= 100000,
        v <= 100000,
        n <= 5,
    ensures
        r as int == spec_from_hsv_chan(h as int, s as int, v as int, n as int),
{
    let k60 = (n * 60000 + h) % 360000;
    let k = k60 as i64;
    let m = if k <= 240000 - k {
        k
    } else {
        240000 - k
    };
    let w: i64 = if m < 0 {
        0
    } else if m > 60000 {
        60000
    } else {
        m
    };
    proof {
        assert(s * (w as int) <= 100000 * 60000) by (nonlinear_arith)
            requires
                s <= 100000,
                0 <= w <= 60000,
        ;
    }
    let sw = s * (w as u64);
    let inner = 6000000000u64 - sw;
    proof {
        assert(v * inner <= 100000 * 6000000000) by (nonlinear_arith)
            requires
                v <= 100000,
                inner <= 6000000000,
        ;
    }
    let num = 255 * (v * inner);
    proof {
        assert(255 * ((v as int) * (inner as int)) == 255 * (v as int) * (inner as int))
            by (nonlinear_arith);
    }
    let q = (2 * num + 600000000000000) / 1200000000000000;
    let r = if q > 255 {
        255
    } else {
        q
    };
    r as u8
}

/// One channel of the HSL-to-RGB conversion on reduced coordinates.
fn from_hsl_chan(h: u64, s: u64, l: u64, n: u64) -> (r: u8)
    requires
        h < 360000,
        s <= 100000,
        l <= 100000,
        n <= 8,
    ensures
        r as int == spec_from_hsl_chan(h as int, s as int, l as int, n as int),
{
    let k30 = (n * 30000 + h) % 360000;
    let k = k30 as i64;
    let mraw = if k - 90000 <= 270000 - k {
        k - 90000
    } else {
        270000 - k
    };
    let m: i64 = if mraw < -30000 {
        -30000
    } else if mraw > 30000 {
        30000
    } else {
        mraw
    };
    let minl = if l <= 100000 - l {
        l
    } else {
        100000 - l
    };
    proof {
        assert(s * minl <= 100000 * 100000) by (nonlinear_arith)
            requires
                s <= 100000,
                minl <= 100000,
        ;
    }
    let sm = s * minl;
    let base = l * 3000000000;
    let num: u64 = if m >= 0 {
        proof {
            assert(s * minl * m <= l * 3000000000) by (nonlinear_arith)
                requires
                    s <= 100000,
                    0 <= m <= 30000,
                    minl <= l,
            ;
            assert(sm * m <= 10000000000 * 30000) by (nonlinear_arith)
                requires
                    sm <= 10000000000,
                    0 <= m <= 30000,
            ;
            assert(sm * (m as int) == s * minl * (m as int)) by (nonlinear_arith)
                requires
                    sm == s * minl,
            ;
        }
        base - sm * (m as u64)
    } else {
        proof {
            assert(sm * ((-m) as int) <= 10000000000 * 30000) by (nonlinear_arith)
                requires
                    sm <= 10000000000,
                    0 < (-m) as int <= 30000,
            ;
            assert(sm * ((-m) as int) == -(sm * (m as int))) by (nonlinear_arith);
            assert(sm * (m as int) == s * minl * (m as int)) by (nonlinear_arith)
                requires
                    sm == s * minl,
            ;
        }
        base + sm * ((-m) as u64)
    };
    proof {
        assert(num as int == (l as int) * 3000000000 - (s as int) * (minl as int) * (m as int));
    }
    let num2 = 255 * num;
    let q = (2 * num2 + 300000000000000) / 600000000000000;
    let r = if q > 255 {
        255
    } else {
        q
    };
    r as u8
}

impl Color {
    /// Builds a color from HSV coordinates.  The hue wraps around the
    /// circle; saturation and value clamp to their scale.
    pub fn from_hsv(h: i64, s: i64, v: i64) -> (c: Color)
        ensures
            c == spec_from_hsv(
                reduce_hue(h as int),
                clamp_int(s as int, 0, 100000),
                clamp_int(v as int, 0, 100000),
            ),
    {
        let hr = hue_mod(h);
        let sc = clamp_pct(s);
        let vc = clamp_pct(v);
        let r = from_hsv_chan(hr, sc, vc, 5);
        let g = from_hsv_chan(hr, sc, vc, 3);
        let b = from_hsv_chan(hr, sc, vc, 1);
        Color { r, g, b }
    }

    /// Builds a color from HSL coordinates.  The hue wraps around the
    /// circle; saturation and lightness clamp to their scale.
    pub fn from_hsl(h: i64, s: i64, l: i64) -> (c: Color)
        ensures
            c == spec_from_hsl(
                reduce_hue(h as int),
                clamp_int(s as int, 0, 100000),
                clamp_int(l as int, 0, 100000),
            ),
    {
        let hr = hue_mod(h);
        let sc = clamp_pct(s);
        let lc = clamp_pct(l);
        let r = from_hsl_chan(hr, sc, lc, 0);
        let g = from_hsl_chan(hr, sc, lc, 8);
        let b = from_hsl_chan(hr, sc, lc, 4);
        Color { r, g, b }
    }
}

/// One channel of the linear interpolation `c + (o - c) * f / 1000`,
/// rounded to a byte.  Factors outside `0 ..= 1000` extrapolate and the
/// result saturates at the byte bounds.
pub open spec fn spec_blend_chan(c: int, o: int, f: int) -> int {
    round_byte(c * 1000 + (o - c) * f, 1000)
}

/// Linear interpolation of `c` toward `o` by `f` thousandths.
pub open spec fn spec_blend(c: Color, o: Color, f: int) -> Color {
    Color {
        r: spec_blend_chan(c.r as int, o.r as int, f) as u8,
        g: spec_blend_chan(c.g as int, o.g as int, f) as u8,
        b: spec_blend_chan(c.b as int, o.b as int, f) as u8,
    }
}

/// Interpolation of `c` toward white (`f >= 0`) or black (`f < 0`) by
/// `|f|` thousandths.
pub open spec fn spec_shade(c: Color, f: int) -> Color {
    let t = if f < 0 {
        Color { r: 0, g: 0, b: 0 }
    } else {
        Color { r: 255, g: 255, b: 255 }
    };
    spec_blend(c, t, abs_int(f))
}

/// `c` with its HSV value moved by `v` and clamped to the scale.
pub open spec fn spec_brighten(c: Color, v: int) -> Color {
    spec_from_hsv(spec_hue(c), spec_hsv_sat(c), clamp_int(spec_hsv_val(c) + v, 0, 100000))
}

/// `c` with its HSL lightness moved by `v` and clamped to the scale.
pub open spec fn spec_lighten(c: Color, v: int) -> Color {
    spec_from_hsl(spec_hue(c), spec_hsl_sat(c), clamp_int(spec_hsl_light(c) + v, 0, 100000))
}

/// `c` with its HSV saturation moved by `v` and clamped to the scale.
pub open spec fn spec_saturate(c: Color, v: int) -> Color {
    spec_from_hsv(spec_hue(c), clamp_int(spec_hsv_sat(c) + v, 0, 100000), spec_hsv_val(c))
}

/// `c` with its hue rotated by `v` thousandths of a degree.
pub open spec fn spec_rotate(c: Color, v: int) -> Color {
    spec_from_hsv((spec_hue(c) + v) % 360000, spec_hsv_sat(c), spec_hsv_val(c))
}

proof fn lemma_round_byte_sat(x: int)
    ensures
        x <= 0 ==> round_byte(x, 1000) == 0,
        x >= 255500 ==> round_byte(x, 1000) == 255,
{
    if x <= 0 {
        lemma_div_is_ordered(2 * x + 1000, 1000, 2000);
        assert(1000int / 2000 == 0);
    }
    if x >= 255500 {
        lemma_div_is_ordered(512000, 2 * x + 1000, 2000);
        assert(512000int / 2000 == 256);
    }
}

/// Capping the factor at 256 in magnitude does not change the blended
/// byte: one full step of the smallest nonzero channel difference already
/// saturates.
pub proof fn lemma_blend_chan_cap(c: int, o: int, f: int)
    requires
        0 <= c <= 255,
        0 <= o <= 255,
    ensures
        spec_blend_chan(c, o, clamp_int(f, -256000, 256000)) == spec_blend_chan(c, o, f),
{
    let fc = clamp_int(f, -256000, 256000);
    let d = o - c;
    if d == 0 {
    } else if f > 256000 {
        if d > 0 {
            lemma_mul_inequality(256000, f, d);
            assert(d * 256000 == 256000 * d) by (nonlinear_arith);
            assert(d * f == f * d) by (nonlinear_arith);
            assert(d * 256000 >= 256000) by (nonlinear_arith)
                requires
                    d >= 1,
            ;
            lemma_round_byte_sat(c * 1000 + d * fc);
            lemma_round_byte_sat(c * 1000 + d * f);
        } else {
            lemma_mul_inequality(256000, f, -d);
            assert((-d) * 256000 >= 256000) by (nonlinear_arith)
                requires
                    -d >= 1,
            ;
            assert((-d) * 256000 <= (-d) * f ==> d * f <= d * 256000) by (nonlinear_arith);
            assert((-d) * 256000 == -(d * 256000)) by (nonlinear_arith);
            lemma_round_byte_sat(c * 1000 + d * fc);
            lemma_round_byte_sat(c * 1000 + d * f);
        }
    } else if f < -256000 {
        if d > 0 {
            lemma_mul_inequality(256000, -f, d);
            assert(d * 256000 >= 256000) by (nonlinear_arith)
                requires
                    d >= 1,
            ;
            assert(d * 256000 <= d * (-f) ==> d * f <= -(d * 256000)) by (nonlinear_arith);
            assert(d * (-256000) == -(d * 256000)) by (nonlinear_arith);
            lemma_round_byte_sat(c * 1000 + d * fc);
            lemma_round_byte_sat(c * 1000 + d * f);
        } else {
            lemma_mul_inequality(256000, -f, -d);
            assert((-d) * 256000 >= 256000) by (nonlinear_arith)
                requires
                    -d >= 1,
            ;
            assert((-d) * 256000 <= (-d) * (-f) ==> d * 256000 <= d * f ==> true)
                by (nonlinear_arith);
            assert((-d) * 256000 <= (-d) * (-f) ==> d * f >= d * 256000 ==> true)
                by (nonlinear_arith);
            assert((-d) * (-f) == d * f && (-d) * 256000 == -(d * 256000)) by (nonlinear_arith);
            assert(d * (-256000) == -(d * 256000)) by (nonlinear_arith);
            lemma_round_byte_sat(c * 1000 + d * fc);
            lemma_round_byte_sat(c * 1000 + d * f);
        }
    }
}

/// One blended channel on capped factors, as executable code.
fn blend_chan(c: u8, o: u8, fc: i64) -> (r: u8)
    requires
        -256000 <= fc <= 256000,
    ensures
        r as int == spec_blend_chan(c as int, o as int, fc as int),
{
    proof {
        let d = (o as int) - (c as int);
        assert(-255 * 256000 <= d * (fc as int) <= 255 * 256000) by (nonlinear_arith)
            requires
                -255 <= d <= 255,
                -256000 <= fc <= 256000,
        ;
    }
    let num: i64 = (c as i64) * 1000 + ((o as i64) - (c as i64)) * fc;
    if num <= 0 {
        proof {
            lemma_round_byte_sat(num as int);
        }
        0
    } else {
        let q = ((2 * (num as u64) + 1000) / 2000) as u64;
        if q > 255 {
            255
        } else {
            q as u8
        }
    }
}

impl Color {
    /// Linear interpolation of each channel toward `other` by `f`
    /// thousandths.  `f` outside `0 ..= 1000` extrapolates; channels
    /// saturate at their byte bounds.
    pub fn blend(&self, other: &Color, f: i64) -> (r: Color)
        ensures
            r == spec_blend(*self, *other, f as int),
    {
        let fc: i64 = if f < -256000 {
            -256000
        } else if f > 256000 {
            256000
        } else {
            f
        };
        proof {
            lemma_blend_chan_cap(self.r as int, other.r as int, f as int);
            lemma_blend_chan_cap(self.g as int, other.g as int, f as int);
            lemma_blend_chan_cap(self.b as int, other.b as int, f as int);
        }
        Color {
            r: blend_chan(self.r, other.r, fc),
            g: blend_chan(self.g, other.g, fc),
            b: blend_chan(self.b, other.b, fc),
        }
    }

    /// Interpolates toward white for `f >= 0` and toward black for
    /// `f < 0`, by `|f|` thousandths.
    pub fn shade(&self, f: i64) -> (r: Color)
        ensures
            r == spec_shade(*self, f as int),
    {
        let t = if f < 0 {
            Color { r: 0, g: 0, b: 0 }
        } else {
            Color { r: 255, g: 255, b: 255 }
        };
        let p: i64 = if f == i64::MIN {
            256000
        } else if f < 0 {
            -f
        } else {
            f
        };
        let pc: i64 = if p > 256000 {
            256000
        } else {
            p
        };
        proof {
            lemma_blend_chan_cap(self.r as int, t.r as int, abs_int(f as int));
            lemma_blend_chan_cap(self.g as int, t.g as int, abs_int(f as int));
            lemma_blend_chan_cap(self.b as int, t.b as int, abs_int(f as int));
        }
        Color {
            r: blend_chan(self.r, t.r, pc),
            g: blend_chan(self.g, t.g, pc),
            b: blend_chan(self.b, t.b, pc),
        }
    }

    /// Moves the HSV value by `v` thousandths of a percent.
    pub fn brighten(&self, v: i64) -> (r: Color)
        ensures
            r == spec_brighten(*self, v as int),
    {
        let (h, s, val) = self.to_hsv();
        let vc: i64 = if v < -200000 {
            -200000
        } else if v > 200000 {
            200000
        } else {
            v
        };
        proof {
            lemma_small_mod(spec_hue(*self) as nat, 360000nat);
        }
        Color::from_hsv(h, s, val + vc)
    }

    /// Moves the HSL lightness by `v` thousandths of a percent.
    pub fn lighten(&self, v: i64) -> (r: Color)
        ensures
            r == spec_lighten(*self, v as int),
    {
        let (h, s, l) = self.to_hsl();
        let vc: i64 = if v < -200000 {
            -200000
        } else if v > 200000 {
            200000
        } else {
            v
        };
        proof {
            lemma_small_mod(spec_hue(*self) as nat, 360000nat);
        }
        Color::from_hsl(h, s, l + vc)
    }

    /// Moves the HSV saturation by `v` thousandths of a percent.
    pub fn saturate(&self, v: i64) -> (r: Color)
        ensures
            r == spec_saturate(*self, v as int),
    {
        let (h, s, val) = self.to_hsv();
        let vc: i64 = if v < -200000 {
            -200000
        } else if v > 200000 {
            200000
        } else {
            v
        };
        proof {
            lemma_small_mod(spec_hue(*self) as nat, 360000nat);
        }
        Color::from_hsv(h, s + vc, val)
    }

    /// Rotates the hue by `v` thousandths of a degree.
    pub fn rotate(&self, v: i64) -> (r: Color)
        ensures
            r == spec_rotate(*self, v as int),
    {
        let (h, s, val) = self.to_hsv();
        let vr = hue_mod(v) as i64;
        proof {
            lemma_add_mod_noop_right(spec_hue(*self), v as int, 360000);
            lemma_small_mod(spec_hsv_sat(*self) as nat, 100001nat);
        }
        Color::from_hsv(h + vr, s, val)
    }
}

} // verus!

verus! {

/// The ASCII byte of the lowercase hex digit for `d`, `0 <= d < 16`.
pub open spec fn hex_digit(d: int) -> u8 {
    if d < 10 {
        (48 + d) as u8
    } else {
        (87 + d) as u8
    }
}

/// The UTF-8 bytes of the CSS `#rrggbb` rendering of a color.
pub open spec fn css_bytes(c: Color) -> Seq<u8> {
    seq![
        35u8,
        hex_digit(c.r as int / 16),
        hex_digit(c.r as int % 16),
        hex_digit(c.g as int / 16),
        hex_digit(c.g as int % 16),
        hex_digit(c.b as int / 16),
        hex_digit(c.b as int % 16),
    ]
}

/// True of an ASCII hex digit byte, either case.
pub open spec fn is_hex_digit_byte(x: u8) -> bool {
    (48 <= x <= 57) || (97 <= x <= 102) || (65 <= x <= 70)
}

/// The value of a hex digit byte.
pub open spec fn hex_value(x: u8) -> int {
    if 48 <= x <= 57 {
        x - 48
    } else if 97 <= x <= 102 {
        x - 87
    } else {
        x - 55
    }
}

/// `b` with every leading `'#'` byte removed.
pub open spec fn strip_hashes(b: Seq<u8>) -> Seq<u8>
    decreases b.len(),
{
    if b.len() > 0 && b[0] == 35 {
        strip_hashes(b.drop_first())
    } else {
        b
    }
}

/// True of the UTF-8 bytes of a string that, after its leading `'#'` signs,
/// is exactly six hex digits.
pub open spec fn spec_valid_css(b: Seq<u8>) -> bool {
    let h = strip_hashes(b);
    h.len() == 6 && (forall|i: int| 0 <= i < 6 ==> is_hex_digit_byte(#[trigger] h[i]))
}

/// The color written by a valid CSS hex byte string.
pub open spec fn spec_css_color(b: Seq<u8>) -> Color {
    let h = strip_hashes(b);
    Color {
        r: (hex_value(h[0]) * 16 + hex_value(h[1])) as u8,
        g: (hex_value(h[2]) * 16 + hex_value(h[3])) as u8,
        b: (hex_value(h[4]) * 16 + hex_value(h[5])) as u8,
    }
}

/// Stripping leading hashes is skipping the longest `'#'` prefix.
proof fn lemma_strip_hashes_skip(b: Seq<u8>, k: int)
    requires
        0 <= k <= b.len(),
        forall|j: int| 0 <= j < k ==> b[j] == 35,
        k == b.len() || b[k] != 35,
    ensures
        strip_hashes(b) =~= b.skip(k),
    decreases k,
{
    if k == 0 {
        if b.len() > 0 && b[0] == 35 {
            assert(false);
        }
        assert(b.skip(0) =~= b);
    } else {
        assert(b[0] == 35);
        lemma_strip_hashes_skip(b.drop_first(), k - 1);
        assert(b.drop_first().skip(k - 1) =~= b.skip(k));
    }
}

fn hex_digit_byte(d: u8) -> (x: u8)
    requires
        d < 16,
    ensures
        x == hex_digit(d as int),
        x < 128,
{
    if d < 10 {
        48 + d
    } else {
        87 + d
    }
}

fn hex_value_of(x: u8) -> (d: u8)
    requires
        is_hex_digit_byte(x),
    ensures
        d as int == hex_value(x),
        d < 16,
{
    if 48 <= x && x <= 57 {
        x - 48
    } else if 97 <= x && x <= 102 {
        x - 87
    } else {
        x - 55
    }
}

impl Color {
    /// The CSS `#rrggbb` rendering, in lowercase hex.
    pub fn to_css(&self) -> (s: String)
        ensures
            encode_utf8(s@) == css_bytes(*self),
    {
        let mut v: Vec<u8> = Vec::new();
        v.push(35);
        v.push(hex_digit_byte(self.r / 16));
        v.push(hex_digit_byte(self.r % 16));
        v.push(hex_digit_byte(self.g / 16));
        v.push(hex_digit_byte(self.g % 16));
        v.push(hex_digit_byte(self.b / 16));
        v.push(hex_digit_byte(self.b % 16));
        proof {
            assert(v@ =~= css_bytes(*self));
        }
        crate::unicode::ascii_to_string(&v)
    }

    /// True of a string that, after its leading `'#'` signs, is exactly six
    /// hex digits.
    pub fn is_valid_css_str(s: &str) -> (r: bool)
        ensures
            r == spec_valid_css(s.spec_bytes()),
    {
        let b = s.as_bytes();
        let n = b.len();
        let mut k: usize = 0;
        while k < n && b[k] == 35
            invariant
                n == b@.len(),
                k <= n,
                forall|j: int| 0 <= j < k ==> b@[j] == 35,
            decreases n - k,
        {
            k += 1;
        }
        proof {
            lemma_strip_hashes_skip(b@, k as int);
            assert(strip_hashes(b@).len() == n - k);
        }
        if n - k != 6 {
            return false;
        }
        let mut i: usize = 0;
        while i < 6
            invariant
                b@ == s.spec_bytes(),
                n == b@.len(),
                k + 6 == n,
                i <= 6,
                strip_hashes(b@) =~= b@.skip(k as int),
                forall|j: int| 0 <= j < i ==> is_hex_digit_byte(#[trigger] strip_hashes(b@)[j]),
            decreases 6 - i,
        {
            let x = b[k + i];
            proof {
                assert(strip_hashes(b@)[i as int] == b@[k + i as int]);
            }
            if !((48 <= x && x <= 57) || (97 <= x && x <= 102) || (65 <= x && x <= 70)) {
                proof {
                    assert(!is_hex_digit_byte(strip_hashes(b@)[i as int]));
                }
                return false;
            }
            i += 1;
        }
        true
    }

    /// Parses a CSS hex string.  The string must be valid; untrusted input
    /// is screened with [`Color::is_valid_css_str`] first.
    pub fn from_css(s: &str) -> (c: Color)
        requires
            spec_valid_css(s.spec_bytes()),
        ensures
            c == spec_css_color(s.spec_bytes()),
    {
        let b = s.as_bytes();
        let n = b.len();
        let mut k: usize = 0;
        while k < n && b[k] == 35
            invariant
                n == b@.len(),
                k <= n,
                forall|j: int| 0 <= j < k ==> b@[j] == 35,
            decreases n - k,
        {
            k += 1;
        }
        proof {
            lemma_strip_hashes_skip(b@, k as int);
            let h = strip_hashes(b@);
            assert(h.len() == n - k);
            assert(is_hex_digit_byte(h[0]) && h[0] == b@[k as int]);
            assert(is_hex_digit_byte(h[1]) && h[1] == b@[k + 1int]);
            assert(is_hex_digit_byte(h[2]) && h[2] == b@[k + 2int]);
            assert(is_hex_digit_byte(h[3]) && h[3] == b@[k + 3int]);
            assert(is_hex_digit_byte(h[4]) && h[4] == b@[k + 4int]);
            assert(is_hex_digit_byte(h[5]) && h[5] == b@[k + 5int]);
        }
        let r = hex_value_of(b[k]) * 16 + hex_value_of(b[k + 1]);
        let g = hex_value_of(b[k + 2]) * 16 + hex_value_of(b[k + 3]);
        let bb = hex_value_of(b[k + 4]) * 16 + hex_value_of(b[k + 5]);
        Color { r, g, b: bb }
    }
}

/// Rendering a color as CSS and parsing it back is the identity.
pub proof fn lemma_css_round_trip(c: Color)
    ensures
        spec_valid_css(css_bytes(c)),
        spec_css_color(css_bytes(c)) == c,
{
    let b = css_bytes(c);
    lemma_strip_hashes_skip(b, 1);
    let h = strip_hashes(b);
    assert(h =~= b.skip(1));
    assert(h[0] == hex_digit(c.r as int / 16));
    assert(c.r as int / 16 < 16 && c.r as int % 16 < 16) by (nonlinear_arith);
    assert(c.g as int / 16 < 16 && c.g as int % 16 < 16) by (nonlinear_arith);
    assert(c.b as int / 16 < 16 && c.b as int % 16 < 16) by (nonlinear_arith);
    assert(forall|d: int| 0 <= d < 16 ==> is_hex_digit_byte(#[trigger] hex_digit(d)));
    assert(forall|d: int| 0 <= d < 16 ==> hex_value(#[trigger] hex_digit(d)) == d);
    assert(c.r as int == (c.r as int / 16) * 16 + c.r as int % 16) by (nonlinear_arith);
    assert(c.g as int == (c.g as int / 16) * 16 + c.g as int % 16) by (nonlinear_arith);
    assert(c.b as int == (c.b as int / 16) * 16 + c.b as int % 16) by (nonlinear_arith);
}

} // verus!

