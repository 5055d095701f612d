//! A library of terminal color themes.
//!
//! A `Color` is an RGB value with HSL/HSV conversions and color algebra,
//! carried out in exact fixed-point integer arithmetic (thousandths of a
//! percent for saturation, value and lightness; thousandths of a degree for
//! hue; thousandths for blend and shade factors).  A `ColorScheme` derives a
//! full UI palette from 22 input colors, a `Theme` names and classifies a
//! scheme and serializes it to a compact byte record, and a `Collection` is a
//! lazy, borrowed view over many serialized themes with random access, name
//! lookup, light/dark filtering and fuzzy name search.

pub mod alacritty;
pub mod collection;
pub mod color;
pub mod error;
pub mod fuzzy;
pub mod scheme;
pub mod theme;
pub mod unicode;

pub use color::Color;
pub use error::ThemeError;
pub use scheme::{AnsiColors, ColorScheme};
pub use theme::Theme;
pub use collection::{Collection, LazyTheme, LazyThemeIter, LazyThemeFilter};
