//! Error model: structured parse errors with a location, and character-mapping
//! errors.

use vstd::prelude::*;

use crate::tag::TableTag;

verus! {

/// Failure of a character-to-glyph lookup.
#[derive(Debug, Clone, Copy, PartialEq, Eq, Structural)]
pub enum MapError {
    /// The character does not fit into the 16-bit code range of the subtable.
    CharTooLarge,
    /// A glyph-id offset computed from the subtable data is out of bounds.
    InvalidOffset,
}

/// Kind of a font [`ParseError`].
#[derive(Debug, Clone, Copy, PartialEq, Eq, Structural)]
pub enum ParseErrorKind {
    /// Unexpected end of the font data.
    UnexpectedEof,
    /// Unexpected font version.
    UnexpectedFontVersion,
    /// Missing required font table (e.g., `head`).
    MissingTable,
    /// A font table is not aligned to a 4-byte boundary.
    UnalignedTable,
    /// No supported subtable in the `cmap` table.
    NoSupportedCmap,
    /// Offset inferred from the table data is out of bounds.
    OffsetOutOfBounds(usize),
    /// Range inferred from the table data is out of bounds of the indexed data.
    RangeOutOfBounds { start: usize, end: usize, len: usize },
    /// Unexpected table version.
    UnexpectedTableVersion(u32),
    /// Unexpected table length.
    UnexpectedTableLen { expected: usize, actual: usize },
    /// Unexpected table format (e.g., for a `cmap` subtable).
    UnexpectedTableFormat(u16),
    /// Checksum mismatch.
    Checksum { expected: u32, actual: u32 },
    /// A character-mapping error surfaced while subsetting.
    Mapping(MapError),
    /// Composite glyphs are nested deeper than the supported limit.
    RecursionLimitExceeded,
}

/// Error that can occur when parsing or subsetting an OpenType font.
#[derive(Debug, Clone, Copy)]
pub struct ParseError {
    pub kind: ParseErrorKind,
    pub offset: usize,
    pub table: Option<TableTag>,
}

impl ParseError {
    pub(crate) fn missing_table(tag: u32) -> (r: Self)
        ensures
            r.kind == ParseErrorKind::MissingTable,
            r.table == Some(TableTag(tag)),
            r.offset == 0,
    {
        ParseError { kind: ParseErrorKind::MissingTable, offset: 0, table: Some(TableTag(tag)) }
    }

    /// Gets the error kind.
    pub fn kind(&self) -> (r: &ParseErrorKind)
        ensures
            r == self.kind,
    {
        &self.kind
    }

    /// Gets the table this error relates to.
    pub fn table(&self) -> (r: Option<TableTag>)
        ensures
            r == self.table,
    {
        self.table
    }

    /// Gets the offset in the font data.
    pub fn offset(&self) -> (r: usize)
        ensures
            r == self.offset,
    {
        self.offset
    }
}

} // verus!
