//! The library's error type: corrupt binary data, bad text encoding, and a
//! missing required field in theme source data.

use vstd::prelude::*;

verus! {

/// Why a theme could not be decoded or built.
#[derive(Debug, Clone, PartialEq, Eq)]
pub enum ThemeError {
    /// The buffer is too short to hold even the length prefix.
    TooShort,
    /// The buffer is shorter than its length prefix declares.
    InvalidLength,
    /// The name bytes are not valid UTF-8.
    InvalidUtf8,
    /// A required field of the theme source is absent; the payload names
    /// the dotted field path.
    MissingField(String),
    /// A color field of the theme source is not a CSS hex color; the
    /// payload holds the offending text.
    InvalidColor(String),
}

/// The error for a required source field that is absent.
pub fn missing_field(path: &str) -> (e: ThemeError)
    ensures
        e matches ThemeError::MissingField(p) && p@ == path@,
{
    ThemeError::MissingField(path.to_owned())
}

} // verus!
