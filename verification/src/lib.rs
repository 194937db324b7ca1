//! Subsetting of TrueType-flavored OpenType fonts.
//!
//! A [`Font`] is parsed from an `sfnt` byte buffer, a [`FontSubset`] retains a
//! caller-chosen set of characters together with every glyph they reach, and the
//! subset is serialized back to the OpenType format (or to WOFF2).

pub mod checksum;
mod cursor;
pub mod cmap;
pub mod font;
pub mod glyph;
pub mod subset;
pub mod write;
mod errors;
mod tag;

pub use crate::font::Font;
pub use crate::errors::{MapError, ParseError, ParseErrorKind};
pub use crate::subset::FontSubset;
pub use crate::write::FontBuilder;
pub use crate::tag::TableTag;
