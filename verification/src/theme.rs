//! A named, light/dark-classified color scheme with a compact binary
//! encoding.
//!
//! Wire layout of one theme record:
//! `[name_len: u8] [name: UTF-8 bytes] [is_light: u8] [66 palette bytes]`.
//! The palette bytes are the 22 canonical colors in wire order, 3 bytes
//! each.


use crate::error::ThemeError;
use crate::scheme::{
    ColorScheme, colors_bytes, colors_of_bytes, spec_canonical, spec_is_light, scheme_matches,
    lemma_colors_bytes_round_trip,
};
use crate::unicode::str_from_utf8;
use vstd::prelude::*;
use vstd::slice::slice_subrange;
use vstd::string::StringSliceAdditionalSpecFns;
use vstd::utf8::{valid_utf8, encode_utf8, encode_utf8_valid_utf8, encode_utf8_decode_utf8};

verus! {

/// A named, classified color scheme.  The flag is derived once, at
/// construction, from the base background's HSL lightness, and then
/// frozen.
#[derive(Debug, Clone)]
pub struct Theme {
    pub name: String,
    pub is_light: bool,
    pub colors: ColorScheme,
}

/// The record byte of the light flag.
pub open spec fn light_byte(is_light: bool) -> u8 {
    if is_light {
        1
    } else {
        0
    }
}

/// A theme can be encoded when its name fits the one-byte length prefix.
pub open spec fn theme_wf(t: Theme) -> bool {
    encode_utf8(t.name@).len() <= 255
}

/// The serialized record of a theme.
pub open spec fn spec_theme_bytes(t: Theme) -> Seq<u8> {
    seq![encode_utf8(t.name@).len() as u8] + encode_utf8(t.name@) + seq![light_byte(t.is_light)]
        + colors_bytes(spec_canonical(t.colors))
}

impl Theme {
    /// Wraps a scheme under a name, classifying it as light exactly when
    /// the base background's HSL lightness exceeds 50 percent (a lightness
    /// of exactly 50 is dark).
    pub fn new(name: String, colors: ColorScheme) -> (t: Theme)
        ensures
            t.name == name,
            t.colors == colors,
            t.is_light == spec_is_light(colors.background@[1]),
    {
        let (_, _, l) = colors.background[1].to_hsl();
        Theme { name, is_light: l > 50000, colors }
    }

    /// The total byte size of the serialized record.
    pub fn size(&self) -> (n: usize)
        requires
            theme_wf(*self),
        ensures
            n == spec_theme_bytes(*self).len(),
    {
        2 + self.name.as_str().len() + 66
    }

    /// Serializes the theme into its record bytes.
    pub fn to_bytes(&self) -> (b: Vec<u8>)
        requires
            theme_wf(*self),
        ensures
            b@ == spec_theme_bytes(*self),
    {
        let name_bytes = self.name.as_str().as_bytes();
        let n = name_bytes.len();
        let mut buf: Vec<u8> = Vec::new();
        buf.push(n as u8);
        let mut i: usize = 0;
        while i < n
            invariant
                n == name_bytes@.len(),
                i <= n,
                buf@ =~= seq![n as u8] + name_bytes@.take(i as int),
            decreases n - i,
        {
            buf.push(name_bytes[i]);
            i += 1;
        }
        proof {
            assert(name_bytes@.take(n as int) =~= name_bytes@);
        }
        buf.push(if self.is_light {
            1
        } else {
            0
        });
        let scheme_bytes = self.colors.to_bytes();
        let mut rest = scheme_bytes;
        buf.append(&mut rest);
        proof {
            assert(buf@ =~= spec_theme_bytes(*self));
        }
        buf
    }

    /// Decodes a theme record.  Succeeds exactly on a buffer that holds its
    /// declared name length, the flag byte and the 66 palette bytes, with
    /// the name bytes valid UTF-8; the decoded scheme is derived afresh from
    /// the 22 stored colors.
    pub fn from_bytes(b: &[u8]) -> (r: Result<Theme, ThemeError>)
        ensures
            b@.len() < 2 ==> (r matches Err(e) && e == ThemeError::TooShort),
            b@.len() >= 2 && b@.len() < 68 + b@[0] ==> (r matches Err(e) && e
                == ThemeError::InvalidLength),
            b@.len() >= 2 && b@.len() >= 68 + b@[0] && !valid_utf8(
                b@.subrange(1, 1 + b@[0] as int),
            ) ==> (r matches Err(e) && e == ThemeError::InvalidUtf8),
            b@.len() >= 2 && b@.len() >= 68 + b@[0] && valid_utf8(b@.subrange(1, 1 + b@[0] as int))
                ==> (r matches Ok(t) && {
                let n = b@[0] as int;
                &&& encode_utf8(t.name@) == b@.subrange(1, 1 + n)
                &&& t.is_light == (b@[1 + n] != 0)
                &&& scheme_matches(t.colors, colors_of_bytes(b@.subrange(2 + n, 68 + n)))
                &&& spec_canonical(t.colors) == colors_of_bytes(b@.subrange(2 + n, 68 + n))
            }),
    {
        if b.len() < 2 {
            return Err(ThemeError::TooShort);
        }
        let name_size = b[0] as usize;
        if b.len() < 68 + name_size {
            return Err(ThemeError::InvalidLength);
        }
        let name_bytes = slice_subrange(b, 1, 1 + name_size);
        let name = match str_from_utf8(name_bytes) {
            Some(st) => st.to_owned(),
            None => {
                return Err(ThemeError::InvalidUtf8);
            },
        };
        let is_light = b[1 + name_size] != 0;
        let colors = ColorScheme::from_bytes(slice_subrange(b, 2 + name_size, 68 + name_size));
        Ok(Theme { name, is_light, colors })
    }
}

/// The serialized record of a well-formed theme always decodes: it is long
/// enough for its own length prefix and its name bytes are valid UTF-8.
pub proof fn lemma_theme_bytes_decodable(t: Theme)
    requires
        theme_wf(t),
    ensures
        spec_theme_bytes(t).len() == 68 + encode_utf8(t.name@).len(),
        spec_theme_bytes(t)[0] == encode_utf8(t.name@).len() as u8,
        spec_theme_bytes(t).len() >= 68 + spec_theme_bytes(t)[0],
        valid_utf8(spec_theme_bytes(t).subrange(1, 1 + spec_theme_bytes(t)[0] as int)),
{
    let bytes = spec_theme_bytes(t);
    let name = encode_utf8(t.name@);
    let n = name.len() as int;
    assert(bytes.len() == 68 + n);
    assert(bytes.subrange(1, 1 + n) =~= name);
    encode_utf8_valid_utf8(t.name@);
}

/// Round trip: decoding the serialized record of a well-formed theme
/// reproduces the name, the light flag, and all 22 canonical colors
/// exactly.  The hypotheses are what [`Theme::from_bytes`] ensures of a
/// successful decode of those bytes.
pub proof fn lemma_theme_round_trip(t: Theme, u: Theme)
    requires
        theme_wf(t),
        encode_utf8(u.name@) == spec_theme_bytes(t).subrange(
            1,
            1 + spec_theme_bytes(t)[0] as int,
        ),
        u.is_light == (spec_theme_bytes(t)[1 + spec_theme_bytes(t)[0] as int] != 0),
        spec_canonical(u.colors) == colors_of_bytes(
            spec_theme_bytes(t).subrange(
                2 + spec_theme_bytes(t)[0] as int,
                68 + spec_theme_bytes(t)[0] as int,
            ),
        ),
    ensures
        u.name@ == t.name@,
        u.is_light == t.is_light,
        spec_canonical(u.colors) == spec_canonical(t.colors),
{
    let bytes = spec_theme_bytes(t);
    let name = encode_utf8(t.name@);
    let n = name.len() as int;
    assert(bytes[0] == name.len() as u8);
    assert(bytes[0] as int == n);
    assert(bytes.subrange(1, 1 + n) =~= name);
    encode_utf8_decode_utf8(t.name@);
    encode_utf8_decode_utf8(u.name@);
    assert(bytes[1 + n] == light_byte(t.is_light));
    let palette = colors_bytes(spec_canonical(t.colors));
    assert(bytes.subrange(2 + n, 68 + n) =~= palette);
    lemma_colors_bytes_round_trip(spec_canonical(t.colors));
}

} // verus!
