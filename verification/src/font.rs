//! Top-level OpenType parsing: the `sfnt` table directory, per-table checksum
//! verification, and the cross-table invariants needed to address glyphs.

use vstd::prelude::*;

use crate::checksum::{checksum, spec_checksum, wsub};
use crate::cmap::{cmap_ok, is_cmap_parse, CmapTable};
use crate::cursor::{be16_at, be32_at, Cursor};
use crate::errors::{MapError, ParseError, ParseErrorKind};
use crate::glyph::{
    glyph_parse_ok, is_glyph_parse, record_component_ids, Glyph, GlyphComponent,
    GlyphWithMetrics,
};
use crate::tag::{
    TableTag, TAG_CMAP, TAG_CVT, TAG_FPGM, TAG_GLYF, TAG_HEAD, TAG_HHEA, TAG_HMTX, TAG_LOCA,
    TAG_MAXP, TAG_NAME, TAG_OS2, TAG_POST, TAG_PREP,
};

verus! {

/// The `sfnt` version this library accepts: TrueType outlines.
pub const SFNT_VERSION: u32 = 0x0001_0000;

/// The value the words of a whole font file must sum to.
pub const SFNT_CHECKSUM: u32 = 0xB1B0_AFBA;

/// Offset of `checksumAdjustment` inside the `head` table.
pub const HEAD_CHECKSUM_OFFSET: usize = 8;

/// Offset of `indexToLocFormat` inside the `head` table.
pub const HEAD_LOCA_FORMAT_OFFSET: usize = 50;

/// Tag of the directory record `i` of the font `b`.
pub open spec fn rec_tag(b: Seq<u8>, i: int) -> u32 {
    be32_at(b, 12 + 16 * i)
}

/// Stored checksum of the directory record `i`.
pub open spec fn rec_checksum(b: Seq<u8>, i: int) -> u32 {
    be32_at(b, 16 + 16 * i)
}

/// Table offset of the directory record `i`.
pub open spec fn rec_off(b: Seq<u8>, i: int) -> int {
    be32_at(b, 20 + 16 * i) as int
}

/// Table length of the directory record `i`.
pub open spec fn rec_len(b: Seq<u8>, i: int) -> int {
    be32_at(b, 24 + 16 * i) as int
}

/// The byte window of the table that directory record `i` points at.
pub open spec fn rec_window(b: Seq<u8>, i: int) -> Seq<u8> {
    b.subrange(rec_off(b, i), rec_off(b, i) + rec_len(b, i))
}

/// Directory record `i` is sound: its window lies in the font, is 4-byte
/// aligned, and its stored checksum matches the computed one (for `head`, after
/// subtracting the `checksumAdjustment` field).
pub open spec fn rec_ok(b: Seq<u8>, i: int) -> bool {
    &&& rec_off(b, i) + rec_len(b, i) <= b.len()
    &&& rec_off(b, i) % 4 == 0
    &&& if rec_tag(b, i) == TAG_HEAD {
        rec_len(b, i) >= 12 && rec_checksum(b, i) == wsub(
            spec_checksum(rec_window(b, i)),
            be32_at(rec_window(b, i), 8),
        )
    } else {
        rec_checksum(b, i) == spec_checksum(rec_window(b, i))
    }
}

/// The ten tags every parsed font must carry.
pub open spec fn required_sfnt_tag(tag: u32) -> bool {
    tag == TAG_CMAP || tag == TAG_HEAD || tag == TAG_HHEA || tag == TAG_HMTX || tag == TAG_MAXP
        || tag == TAG_NAME || tag == TAG_OS2 || tag == TAG_POST || tag == TAG_LOCA || tag
        == TAG_GLYF
}

/// Some directory record of `b` carries `tag` and selects the window `w`.
pub open spec fn table_selected(b: Seq<u8>, n: int, tag: u32, w: Seq<u8>) -> bool {
    exists|i: int| 0 <= i < n && #[trigger] rec_tag(b, i) == tag && w == rec_window(b, i)
}

/// Some record among the first `n` carries `tag`.
pub open spec fn has_tag(b: Seq<u8>, n: int, tag: u32) -> bool {
    exists|i: int| 0 <= i < n && #[trigger] rec_tag(b, i) == tag
}

/// Index of the last record carrying `tag` among the first `n`; -1 if none.
/// The parser decodes the last occurrence, since later records overwrite
/// earlier ones.
pub open spec fn last_tag_index(b: Seq<u8>, n: int, tag: u32) -> int
    decreases n when n >= 0
{
    if n <= 0 {
        -1
    } else if rec_tag(b, n - 1) == tag {
        n - 1
    } else {
        last_tag_index(b, n - 1, tag)
    }
}

proof fn lemma_last_tag_index(b: Seq<u8>, n: int, tag: u32)
    requires
        n >= 0,
    ensures
        (last_tag_index(b, n, tag) >= 0) == has_tag(b, n, tag),
        last_tag_index(b, n, tag) < n,
        last_tag_index(b, n, tag) >= 0 ==> rec_tag(b, last_tag_index(b, n, tag)) == tag,
    decreases n,
{
    if n > 0 {
        lemma_last_tag_index(b, n - 1, tag);
        if rec_tag(b, n - 1) == tag {
        } else if has_tag(b, n, tag) {
            let i = choose|i: int| 0 <= i < n && #[trigger] rec_tag(b, i) == tag;
            assert(0 <= i < n - 1 && rec_tag(b, i) == tag);
        }
    }
}

/// The input is a parseable font (§ container): version, a complete and sound
/// directory, a parseable `cmap` and 36-byte `hhea` wherever those tags occur,
/// every required table present, and the shape conditions on the decoded (that
/// is, last) occurrence of `head`, `maxp`, `loca`, and `post`. Kept opaque so
/// the parser's proofs unfold it only where a failure contradicts it.
#[verifier::opaque]
pub open spec fn font_ok(b: Seq<u8>) -> bool {
    let n = be16_at(b, 4) as int;
    let headw = rec_window(b, last_tag_index(b, n, TAG_HEAD));
    let maxpw = rec_window(b, last_tag_index(b, n, TAG_MAXP));
    let locaw = rec_window(b, last_tag_index(b, n, TAG_LOCA));
    let postw = rec_window(b, last_tag_index(b, n, TAG_POST));
    &&& b.len() >= 12
    &&& be32_at(b, 0) == SFNT_VERSION
    &&& 12 + 16 * n <= b.len()
    &&& (forall|i: int| 0 <= i < n ==> rec_ok(b, i))
    &&& (forall|i: int|
        0 <= i < n && #[trigger] rec_tag(b, i) == TAG_CMAP ==> cmap_ok(rec_window(b, i)))
    &&& (forall|i: int|
        0 <= i < n && #[trigger] rec_tag(b, i) == TAG_HHEA ==> rec_len(b, i) == 36)
    &&& has_tag(b, n, TAG_CMAP)
    &&& has_tag(b, n, TAG_HEAD)
    &&& has_tag(b, n, TAG_HHEA)
    &&& has_tag(b, n, TAG_HMTX)
    &&& has_tag(b, n, TAG_MAXP)
    &&& has_tag(b, n, TAG_NAME)
    &&& has_tag(b, n, TAG_OS2)
    &&& has_tag(b, n, TAG_POST)
    &&& has_tag(b, n, TAG_LOCA)
    &&& has_tag(b, n, TAG_GLYF)
    &&& headw.len() >= 52
    &&& be32_at(headw, 0) == SFNT_VERSION
    &&& (be16_at(headw, 50) == 0 || be16_at(headw, 50) == 1)
    &&& maxpw.len() >= 6
    &&& (be32_at(maxpw, 0) == 0x0000_5000 || be32_at(maxpw, 0) == 0x0001_0000)
    &&& locaw.len() == (if be16_at(headw, 50) == 0 {
        2int
    } else {
        4
    }) * (be16_at(maxpw, 4) + 1)
    &&& postw.len() >= 32
}

/// Horizontal header table: its 36 raw bytes and the decoded metric count.
#[derive(Debug, Clone)]
pub struct HheaTable {
    pub raw: Vec<u8>,
    pub number_of_h_metrics: u16,
}

impl HheaTable {
    /// Required length of the `hhea` table: 18 16-bit words.
    pub const EXPECTED_LEN: usize = 36;

    /// `raw` is the 36-byte table and the metric count is its last word.
    pub open spec fn wf(self) -> bool {
        self.raw@.len() == 36 && self.number_of_h_metrics == be16_at(self.raw@, 34)
    }

    /// Validates the length of the `hhea` table and decodes
    /// `numberOfHMetrics` from its last word.
    pub(crate) fn parse(cursor: Cursor<'_>) -> (r: Result<HheaTable, ParseError>)
        requires
            cursor.wf(),
        ensures
            match r {
                Ok(t) => t.wf() && t.raw@ == cursor.window(),
                Err(e) => cursor.window().len() != 36 && (e.kind matches ParseErrorKind::UnexpectedTableLen {
                    expected: 36,
                    actual,
                } && actual == cursor.window().len()),
            },
    {
        let len = cursor.end - cursor.pos;
        if len != Self::EXPECTED_LEN {
            return Err(
                cursor.err(
                    ParseErrorKind::UnexpectedTableLen { expected: Self::EXPECTED_LEN, actual: len },
                ),
            );
        }
        let mut tail = cursor;
        tail.skip(34)?;
        let number_of_h_metrics = tail.read_u16()?;
        let raw = cursor.rest_vec();
        Ok(HheaTable { raw, number_of_h_metrics })
    }
}

/// Horizontal metrics table: raw bytes plus the metric count from `hhea`.
#[derive(Debug, Clone)]
pub struct HmtxTable {
    pub raw: Vec<u8>,
    pub number_of_h_metrics: u16,
}

impl HmtxTable {
    /// The metrics assigned to `idx`: glyphs beyond `numberOfHMetrics` share
    /// the last advance and carry only a left side bearing.
    pub open spec fn spec_advance(self, idx: int) -> u16 {
        if idx < self.number_of_h_metrics {
            be16_at(self.raw@, 4 * idx)
        } else {
            be16_at(self.raw@, 4 * (self.number_of_h_metrics - 1))
        }
    }

    pub open spec fn spec_lsb(self, idx: int) -> u16 {
        if idx < self.number_of_h_metrics {
            be16_at(self.raw@, 4 * idx + 2)
        } else {
            be16_at(self.raw@, 4 * self.number_of_h_metrics + 2 * (idx
                - self.number_of_h_metrics))
        }
    }

    /// The table is long enough to answer for glyph `idx`.
    pub open spec fn covers(self, idx: int) -> bool {
        if idx < self.number_of_h_metrics {
            4 * idx + 4 <= self.raw@.len()
        } else {
            &&& self.number_of_h_metrics >= 1
            &&& 4 * (self.number_of_h_metrics - 1) + 4 <= self.raw@.len()
            &&& 4 * self.number_of_h_metrics + 2 * (idx - self.number_of_h_metrics) + 2
                <= self.raw@.len()
        }
    }

    /// Reads the advance width and left side bearing of glyph `idx`.
    pub fn advance_and_lsb(&self, glyph_idx: u16) -> (r: Result<(u16, u16), ParseError>)
        ensures
            match r {
                Ok((advance, lsb)) => self.covers(glyph_idx as int) && advance == self.spec_advance(
                    glyph_idx as int,
                ) && lsb == self.spec_lsb(glyph_idx as int),
                Err(e) => !self.covers(glyph_idx as int) && e.kind
                    == ParseErrorKind::UnexpectedEof,
            },
    {
        let idx = glyph_idx as usize;
        let nh = self.number_of_h_metrics as usize;
        let len = self.raw.len();
        if idx < nh {
            if 4 * idx + 4 > len {
                return Err(
                    ParseError { kind: ParseErrorKind::UnexpectedEof, offset: len, table: None },
                );
            }
            let advance = (self.raw[4 * idx] as u16) * 0x100 + (self.raw[4 * idx + 1] as u16);
            let lsb = (self.raw[4 * idx + 2] as u16) * 0x100 + (self.raw[4 * idx + 3] as u16);
            Ok((advance, lsb))
        } else {
            if nh == 0 || 4 * (nh - 1) + 4 > len || 4 * nh + 2 * (idx - nh) + 2 > len {
                return Err(
                    ParseError { kind: ParseErrorKind::UnexpectedEof, offset: len, table: None },
                );
            }
            let a = 4 * (nh - 1);
            let advance = (self.raw[a] as u16) * 0x100 + (self.raw[a + 1] as u16);
            let l = 4 * nh + 2 * (idx - nh);
            let lsb = (self.raw[l] as u16) * 0x100 + (self.raw[l + 1] as u16);
            Ok((advance, lsb))
        }
    }
}

/// The two encodings of the `loca` table.
#[derive(Debug, Clone, Copy, PartialEq, Eq, Structural)]
pub enum LocaFormat {
    Short,
    Long,
}

impl LocaFormat {
    pub open spec fn spec_bytes_per_offset(self) -> int {
        match self {
            LocaFormat::Short => 2,
            LocaFormat::Long => 4,
        }
    }

    pub fn bytes_per_offset(self) -> (r: usize)
        ensures
            r == self.spec_bytes_per_offset(),
    {
        match self {
            LocaFormat::Short => 2,
            LocaFormat::Long => 4,
        }
    }
}

/// The glyph-offset table, owned, with its decoded format.
#[derive(Debug, Clone)]
pub struct LocaTable {
    pub format: LocaFormat,
    pub data: Vec<u8>,
}

impl LocaTable {
    /// The `glyf` offset stored in entry `i`.
    pub open spec fn spec_offset_at(self, i: int) -> int {
        match self.format {
            LocaFormat::Short => 2 * be16_at(self.data@, 2 * i),
            LocaFormat::Long => be32_at(self.data@, 4 * i) as int,
        }
    }

    /// The table holds exactly `glyph_count + 1` entries.
    pub open spec fn wf(self, glyph_count: int) -> bool {
        self.data@.len() == self.spec_bytes_per_offset() * (glyph_count + 1)
    }

    pub open spec fn spec_bytes_per_offset(self) -> int {
        self.format.spec_bytes_per_offset()
    }

    /// Validates the table length against the glyph count and takes ownership
    /// of the data.
    pub(crate) fn new(format: LocaFormat, glyph_count: u16, cursor: Cursor<'_>) -> (r: Result<
        LocaTable,
        ParseError,
    >)
        requires
            cursor.wf(),
        ensures
            match r {
                Ok(t) => {
                    &&& t.format == format
                    &&& t.data@ == cursor.window()
                    &&& t.wf(glyph_count as int)
                },
                Err(e) => {
                    &&& cursor.window().len() != format.spec_bytes_per_offset() * (glyph_count
                        + 1)
                    &&& e.kind matches ParseErrorKind::UnexpectedTableLen { expected, actual }
                    &&& expected == format.spec_bytes_per_offset() * (glyph_count + 1)
                    &&& actual == cursor.window().len()
                },
            },
    {
        let expected_len = format.bytes_per_offset() * (glyph_count as usize + 1);
        let len = cursor.end - cursor.pos;
        if len != expected_len {
            Err(
                cursor.err(
                    ParseErrorKind::UnexpectedTableLen { expected: expected_len, actual: len },
                ),
            )
        } else {
            Ok(LocaTable { format, data: cursor.rest_vec() })
        }
    }

    /// The `glyf` range of glyph `idx`: entries `idx` and `idx + 1`.
    pub fn glyph_range(&self, glyph_idx: u16) -> (r: Result<(usize, usize), ParseError>)
        ensures
            match r {
                Ok((start, end)) => {
                    &&& self.spec_bytes_per_offset() * (glyph_idx + 2) <= self.data@.len()
                    &&& start == self.spec_offset_at(glyph_idx as int)
                    &&& end == self.spec_offset_at(glyph_idx as int + 1)
                },
                Err(e) => {
                    &&& self.spec_bytes_per_offset() * (glyph_idx + 2) > self.data@.len()
                    &&& e.kind == ParseErrorKind::UnexpectedEof
                },
            },
    {
        let idx = glyph_idx as usize;
        let len = self.data.len();
        match self.format {
            LocaFormat::Short => {
                if 2 * idx + 4 > len {
                    return Err(
                        ParseError {
                            kind: ParseErrorKind::UnexpectedEof,
                            offset: len,
                            table: Some(TableTag(TAG_LOCA)),
                        },
                    );
                }
                let start = ((self.data[2 * idx] as usize) * 0x100 + (self.data[2 * idx
                    + 1] as usize)) * 2;
                let end = ((self.data[2 * idx + 2] as usize) * 0x100 + (self.data[2 * idx
                    + 3] as usize)) * 2;
                Ok((start, end))
            },
            LocaFormat::Long => {
                if 4 * idx + 8 > len {
                    return Err(
                        ParseError {
                            kind: ParseErrorKind::UnexpectedEof,
                            offset: len,
                            table: Some(TableTag(TAG_LOCA)),
                        },
                    );
                }
                let start = (self.data[4 * idx] as usize) * 0x100_0000 + (self.data[4 * idx
                    + 1] as usize) * 0x1_0000 + (self.data[4 * idx + 2] as usize) * 0x100 + (
                self.data[4 * idx + 3] as usize);
                let end = (self.data[4 * idx + 4] as usize) * 0x100_0000 + (self.data[4 * idx
                    + 5] as usize) * 0x1_0000 + (self.data[4 * idx + 6] as usize) * 0x100 + (
                self.data[4 * idx + 7] as usize);
                Ok((start, end))
            },
        }
    }
}

/// A parsed font: owned copies of every recognized table, decoded far enough
/// to map characters and address glyphs.
#[derive(Debug, Clone)]
pub struct Font {
    pub cmap: CmapTable,
    pub head: Vec<u8>,
    pub hhea: HheaTable,
    pub hmtx: HmtxTable,
    pub maxp: Vec<u8>,
    pub name: Vec<u8>,
    pub os2: Vec<u8>,
    pub post: Vec<u8>,
    pub loca: LocaTable,
    pub glyf: Vec<u8>,
    pub cvt: Option<Vec<u8>>,
    pub fpgm: Option<Vec<u8>>,
    pub prep: Option<Vec<u8>>,
    pub glyph_count: u16,
}

impl Font {
    /// Structural facts that parsing establishes and everything downstream
    /// relies on.
    pub open spec fn wf(self) -> bool {
        &&& self.cmap.wf()
        &&& self.head@.len() >= 52
        &&& be32_at(self.head@, 0) == SFNT_VERSION
        &&& (be16_at(self.head@, 50) == 0 || be16_at(self.head@, 50) == 1)
        &&& (self.loca.format == LocaFormat::Short <==> be16_at(self.head@, 50) == 0)
        &&& self.hhea.wf()
        &&& self.hmtx.number_of_h_metrics == self.hhea.number_of_h_metrics
        &&& self.maxp@.len() >= 6
        &&& self.glyph_count == be16_at(self.maxp@, 4)
        &&& self.post@.len() >= 32
        &&& self.loca.wf(self.glyph_count as int)
    }

    /// The `glyf` window of glyph `idx`.
    pub open spec fn glyph_record_window(self, idx: int) -> Seq<u8> {
        self.glyf@.subrange(self.loca.spec_offset_at(idx), self.loca.spec_offset_at(idx + 1))
    }

    /// Glyph `idx` is addressable: its `loca` entries exist and are ordered
    /// within `glyf`, its record decodes, and `hmtx` covers it.
    pub open spec fn glyph_ok_at(self, idx: int) -> bool {
        let start = self.loca.spec_offset_at(idx);
        let end = self.loca.spec_offset_at(idx + 1);
        &&& self.loca.spec_bytes_per_offset() * (idx + 2) <= self.loca.data@.len()
        &&& start <= end <= self.glyf@.len()
        &&& glyph_parse_ok(self.glyf@.subrange(start, end))
        &&& self.hmtx.covers(idx)
    }

    /// The glyph record `g` is what the font's tables hold for glyph `idx`.
    pub open spec fn glyph_matches(self, idx: int, g: GlyphWithMetrics) -> bool {
        let start = self.loca.spec_offset_at(idx);
        let end = self.loca.spec_offset_at(idx + 1);
        &&& self.loca.spec_bytes_per_offset() * (idx + 2) <= self.loca.data@.len()
        &&& 0 <= start <= end <= self.glyf@.len()
        &&& is_glyph_parse(self.glyf@.subrange(start, end), g.inner)
        &&& self.hmtx.covers(idx)
        &&& g.advance == self.hmtx.spec_advance(idx)
        &&& g.lsb == self.hmtx.spec_lsb(idx)
    }

    /// Maps a character to its glyph index in this font.
    pub fn map_char(&self, ch: char) -> (r: Result<u16, MapError>)
        requires
            self.wf(),
        ensures
            self.cmap.sorted() ==> r == self.cmap.spec_map_char(ch),
    {
        self.cmap.map_char(ch)
    }

    /// Fetches glyph `glyph_idx` together with its metrics.
    pub fn glyph(&self, glyph_idx: u16) -> (r: Result<GlyphWithMetrics, ParseError>)
        requires
            self.wf(),
        ensures
            match r {
                Ok(g) => {
                    &&& self.glyph_matches(glyph_idx as int, g)
                    &&& glyph_idx < self.glyph_count
                    &&& self.glyph_ok_at(glyph_idx as int)
                    &&& (g.inner matches Glyph::Composite { components, .. }
                        ==> components@.map_values(|c: GlyphComponent| c.glyph_idx)
                        == record_component_ids(self.glyph_record_window(glyph_idx as int)))
                    &&& (!(g.inner is Composite) ==> record_component_ids(
                        self.glyph_record_window(glyph_idx as int),
                    ) == Seq::<u16>::empty())
                },
                Err(_) => !self.glyph_ok_at(glyph_idx as int),
            },
    {
        let (start, end) = self.loca.glyph_range(glyph_idx)?;
        proof {
            let bpo = self.loca.spec_bytes_per_offset();
            assert(bpo * (glyph_idx + 2) <= bpo * (self.glyph_count + 1) ==> glyph_idx + 2
                <= self.glyph_count + 1) by (nonlinear_arith)
                requires
                    bpo == 2 || bpo == 4,
            ;
        }
        if start > end || end > self.glyf.len() {
            return Err(
                ParseError {
                    kind: ParseErrorKind::RangeOutOfBounds { start, end, len: self.glyf.len() },
                    offset: 0,
                    table: Some(TableTag(TAG_GLYF)),
                },
            );
        }
        let raw = Cursor {
            bytes: self.glyf.as_slice(),
            pos: start,
            end,
            off0: 0,
            table: Some(TableTag(TAG_GLYF)),
        };
        let inner = Glyph::new(raw)?;
        let (advance, lsb) = self.hmtx.advance_and_lsb(glyph_idx)?;
        Ok(GlyphWithMetrics { inner, advance, lsb })
    }
}


impl Font {
    /// Reads one 16-byte directory record, obtains the table's window, checks
    /// its alignment, and verifies its checksum (for `head`, after subtracting
    /// the stored `checksumAdjustment`).
    fn parse_table_record<'a>(header_cursor: &mut Cursor<'a>) -> (r: Result<
        (u32, Cursor<'a>),
        ParseError,
    >)
        requires
            old(header_cursor).wf(),
            old(header_cursor).off0 == 0,
            old(header_cursor).end == old(header_cursor).bytes@.len(),
        ensures
            final(header_cursor).wf(),
            final(header_cursor).bytes@ == old(header_cursor).bytes@,
            final(header_cursor).end == old(header_cursor).end,
            final(header_cursor).off0 == 0,
            match r {
                Ok((tag, c)) => {
                    let b = old(header_cursor).bytes@;
                    let p = old(header_cursor).pos as int;
                    &&& final(header_cursor).pos == p + 16
                    &&& p + 16 <= b.len()
                    &&& tag == be32_at(b, p)
                    &&& c.wf()
                    &&& c.bytes@ == b
                    &&& c.off0 == 0
                    &&& c.table == Some(TableTag(tag))
                    &&& c.pos == be32_at(b, p + 8)
                    &&& c.end == be32_at(b, p + 8) + be32_at(b, p + 12)
                    &&& c.pos % 4 == 0
                    &&& if tag == TAG_HEAD {
                        c.window().len() >= 12 && be32_at(b, p + 4) == wsub(
                            spec_checksum(c.window()),
                            be32_at(c.window(), 8),
                        )
                    } else {
                        be32_at(b, p + 4) == spec_checksum(c.window())
                    }
                },
                Err(e) => {
                    let b = old(header_cursor).bytes@;
                    let p = old(header_cursor).pos as int;
                    &&& !(e.kind is MissingTable)
                    &&& {
                    ||| p + 16 > b.len()
                    ||| {
                        let off = be32_at(b, p + 8) as int;
                        let len = be32_at(b, p + 12) as int;
                        ||| (off + len > b.len() && e.kind matches ParseErrorKind::RangeOutOfBounds { .. })
                        ||| (off + len <= b.len() && off % 4 != 0 && e.kind
                            == ParseErrorKind::UnalignedTable)
                        ||| ({
                            let win = b.subrange(off, off + len);
                            let computed = if be32_at(b, p) == TAG_HEAD {
                                wsub(spec_checksum(win), be32_at(win, 8))
                            } else {
                                spec_checksum(win)
                            };
                            &&& off + len <= b.len()
                            &&& off % 4 == 0
                            &&& (be32_at(b, p) == TAG_HEAD ==> len >= 12)
                            &&& computed != be32_at(b, p + 4)
                            &&& e.kind == (ParseErrorKind::Checksum {
                                expected: be32_at(b, p + 4),
                                actual: computed,
                            })
                        })
                        ||| (off + len <= b.len() && off % 4 == 0 && be32_at(b, p) == TAG_HEAD
                            && len < 12 && e.kind == ParseErrorKind::UnexpectedEof)
                    }
                    }
                },
            },
    {
        let ghost b = header_cursor.bytes@;
        let ghost p = header_cursor.pos as int;
        let tag = header_cursor.read_u32()?;
        let stored_checksum = header_cursor.read_u32()?;
        let offset_u32 = header_cursor.read_u32()?;
        let len_u32 = header_cursor.read_u32()?;
        let bytes = header_cursor.bytes;
        let blen = bytes.len();
        let offset = offset_u32 as usize;
        let len = len_u32 as usize;
        if len > blen || offset > blen - len {
            return Err(
                ParseError {
                    kind: ParseErrorKind::RangeOutOfBounds {
                        start: offset,
                        end: offset.wrapping_add(len),
                        len: blen,
                    },
                    offset: header_cursor.off0 + header_cursor.pos,
                    table: Some(TableTag(tag)),
                },
            );
        }
        let cursor = Cursor {
            bytes,
            pos: offset,
            end: offset + len,
            off0: 0,
            table: Some(TableTag(tag)),
        };
        if offset % 4 != 0 {
            return Err(cursor.err(ParseErrorKind::UnalignedTable));
        }
        let mut actual_checksum = checksum(&bytes[offset..offset + len]);
        if tag == TAG_HEAD {
            // Zero out the checksum adjustment field before comparing.
            let mut adj_cursor = cursor;
            adj_cursor.skip(HEAD_CHECKSUM_OFFSET)?;
            let adjustment = adj_cursor.read_u32()?;
            actual_checksum = crate::checksum::wsub_exec(actual_checksum, adjustment);
        }
        if stored_checksum != actual_checksum {
            return Err(
                cursor.err(
                    ParseErrorKind::Checksum { expected: stored_checksum, actual: actual_checksum },
                ),
            );
        }
        Ok((tag, cursor))
    }

    /// Decodes the `head` table version and `indexToLocFormat`.
    fn parse_loca_format(head: Cursor<'_>) -> (r: Result<LocaFormat, ParseError>)
        requires
            head.wf(),
        ensures
            match r {
                Ok(fmt) => {
                    let w = head.window();
                    &&& w.len() >= 52
                    &&& be32_at(w, 0) == SFNT_VERSION
                    &&& (be16_at(w, 50) == 0 || be16_at(w, 50) == 1)
                    &&& (fmt == LocaFormat::Short <==> be16_at(w, 50) == 0)
                },
                Err(e) => {
                    let w = head.window();
                    &&& !(w.len() >= 52 && be32_at(w, 0) == SFNT_VERSION && (be16_at(w, 50) == 0
                        || be16_at(w, 50) == 1))
                    &&& !(e.kind is MissingTable)
                    &&& (w.len() >= 4 && be32_at(w, 0) != SFNT_VERSION ==> e.kind
                        == ParseErrorKind::UnexpectedTableVersion(be32_at(w, 0)) && e.offset
                        == head.offset())
                    &&& (w.len() >= 52 && be32_at(w, 0) == SFNT_VERSION && be16_at(w, 50) != 0
                        && be16_at(w, 50) != 1 ==> e.kind == ParseErrorKind::UnexpectedTableFormat(
                        be16_at(w, 50),
                    ) && e.offset == head.offset() + 50)
                },
            },
    {
        let mut cursor = head;
        let version_offset = cursor.off0 + cursor.pos;
        let version = cursor.read_u32()?;
        if version != SFNT_VERSION {
            return Err(
                ParseError {
                    kind: ParseErrorKind::UnexpectedTableVersion(version),
                    offset: version_offset,
                    table: cursor.table,
                },
            );
        }
        // fontRevision, checksumAdjustment, magicNumber, flags, unitsPerEm,
        // created, modified, bounding box, macStyle, lowestRecPPEM,
        // fontDirectionHint
        cursor.skip(46)?;
        let format_offset = cursor.off0 + cursor.pos;
        let format = cursor.read_u16()?;
        if format == 0 {
            Ok(LocaFormat::Short)
        } else if format == 1 {
            Ok(LocaFormat::Long)
        } else {
            Err(
                ParseError {
                    kind: ParseErrorKind::UnexpectedTableFormat(format),
                    offset: format_offset,
                    table: cursor.table,
                },
            )
        }
    }

    /// Decodes the `maxp` table version and `numGlyphs`.
    fn parse_glyph_count(maxp: Cursor<'_>) -> (r: Result<u16, ParseError>)
        requires
            maxp.wf(),
        ensures
            match r {
                Ok(count) => {
                    let w = maxp.window();
                    &&& w.len() >= 6
                    &&& (be32_at(w, 0) == 0x0000_5000 || be32_at(w, 0) == 0x0001_0000)
                    &&& count == be16_at(w, 4)
                },
                Err(e) => {
                    let w = maxp.window();
                    &&& !(e.kind is MissingTable)
                    &&& !(w.len() >= 6 && (be32_at(w, 0) == 0x0000_5000 || be32_at(w, 0)
                        == 0x0001_0000))
                    &&& (w.len() >= 4 && be32_at(w, 0) != 0x0000_5000 && be32_at(w, 0)
                        != 0x0001_0000 ==> e.kind == ParseErrorKind::UnexpectedTableVersion(
                        be32_at(w, 0),
                    ) && e.offset == maxp.offset())
                },
            },
    {
        let mut cursor = maxp;
        let version_offset = cursor.off0 + cursor.pos;
        let version = cursor.read_u32()?;
        if version != 0x0000_5000 && version != 0x0001_0000 {
            return Err(
                ParseError {
                    kind: ParseErrorKind::UnexpectedTableVersion(version),
                    offset: version_offset,
                    table: cursor.table,
                },
            );
        }
        cursor.read_u16()
    }

    /// Parses a font from the bytes of an `sfnt` container, verifying the
    /// version, the table directory, every table's alignment and checksum, the
    /// presence of all required tables, and the cross-table glyph invariants.
    #[verifier::loop_isolation(false)]
    #[verifier::rlimit(100)]
    pub fn parse(bytes: &[u8]) -> (r: Result<Font, ParseError>)
        ensures
            font_ok(bytes@) ==> r is Ok,
            match r {
                Ok(f) => {
                    let b = bytes@;
                    let n = be16_at(b, 4) as int;
                    &&& f.wf()
                    &&& b.len() >= 12 + 16 * n
                    &&& be32_at(b, 0) == SFNT_VERSION
                    &&& (forall|i: int| 0 <= i < n ==> rec_ok(b, i))
                    &&& table_selected(b, n, TAG_HEAD, f.head@)
                    &&& table_selected(b, n, TAG_HHEA, f.hhea.raw@)
                    &&& table_selected(b, n, TAG_HMTX, f.hmtx.raw@)
                    &&& table_selected(b, n, TAG_MAXP, f.maxp@)
                    &&& table_selected(b, n, TAG_NAME, f.name@)
                    &&& table_selected(b, n, TAG_OS2, f.os2@)
                    &&& table_selected(b, n, TAG_POST, f.post@)
                    &&& table_selected(b, n, TAG_LOCA, f.loca.data@)
                    &&& table_selected(b, n, TAG_GLYF, f.glyf@)
                    &&& (exists|i: int|
                        0 <= i < n && #[trigger] rec_tag(b, i) == TAG_CMAP && is_cmap_parse(
                            rec_window(b, i),
                            f.cmap,
                        ))
                    &&& (f.cvt matches Some(v) ==> table_selected(b, n, TAG_CVT, v@))
                    &&& (f.fpgm matches Some(v) ==> table_selected(b, n, TAG_FPGM, v@))
                    &&& (f.prep matches Some(v) ==> table_selected(b, n, TAG_PREP, v@))
                    &&& (f.cvt is Some <==> has_tag(b, n, TAG_CVT))
                    &&& (f.fpgm is Some <==> has_tag(b, n, TAG_FPGM))
                    &&& (f.prep is Some <==> has_tag(b, n, TAG_PREP))
                },
                Err(e) => {
                    &&& (bytes@.len() >= 4 && be32_at(bytes@, 0) != SFNT_VERSION ==> e.kind
                        == ParseErrorKind::UnexpectedFontVersion && e.offset == 4 && e.table
                        is None)
                    &&& (e.kind == ParseErrorKind::MissingTable ==> e.offset == 0 && match e.table {
                        Option::Some(t) => required_sfnt_tag(t.0) && !has_tag(
                            bytes@,
                            be16_at(bytes@, 4) as int,
                            t.0,
                        ),
                        Option::None => false,
                    })
                },
            },
    {
        let ghost b = bytes@;
        let mut cursor = Cursor::new(bytes);
        let sfnt_version = match cursor.read_u32() {
            Ok(v) => v,
            Err(e) => {
                proof {
                    reveal(font_ok);
                }
                return Err(e);
            },
        };
        if sfnt_version != SFNT_VERSION {
            proof {
                reveal(font_ok);
            }
            return Err(cursor.err(ParseErrorKind::UnexpectedFontVersion));
        }
        let table_count_u16 = match cursor.read_u16() {
            Ok(v) => v,
            Err(e) => {
                proof {
                    reveal(font_ok);
                }
                return Err(e);
            },
        };
        let table_count = table_count_u16 as usize;
        let ghost n = table_count as int;
        match cursor.skip(6) {
            Ok(()) => (),
            Err(e) => {
                proof {
                    reveal(font_ok);
                }
                return Err(e);
            },
        };  // searchRange, entrySelector, rangeShift

        let mut cmap: Option<CmapTable> = None;
        let mut head: Option<Cursor<'_>> = None;
        let mut hhea: Option<HheaTable> = None;
        let mut hmtx: Option<Cursor<'_>> = None;
        let mut maxp: Option<Cursor<'_>> = None;
        let mut name: Option<Cursor<'_>> = None;
        let mut os2: Option<Cursor<'_>> = None;
        let mut post: Option<Cursor<'_>> = None;
        let mut loca: Option<Cursor<'_>> = None;
        let mut glyf: Option<Cursor<'_>> = None;
        let mut cvt: Option<Cursor<'_>> = None;
        let mut fpgm: Option<Cursor<'_>> = None;
        let mut prep: Option<Cursor<'_>> = None;

        let mut i: usize = 0;
        while i < table_count
            invariant
                0 <= i <= table_count,
                cursor.wf(),
                cursor.bytes@ == b,
                cursor.off0 == 0,
                cursor.end == b.len(),
                cursor.pos == 12 + 16 * i,
                forall|j: int| 0 <= j < i ==> #[trigger] rec_ok(b, j),
                cursor_table_inv(b, i as int, TAG_HEAD, head),
                cursor_table_inv(b, i as int, TAG_HMTX, hmtx),
                cursor_table_inv(b, i as int, TAG_MAXP, maxp),
                cursor_table_inv(b, i as int, TAG_NAME, name),
                cursor_table_inv(b, i as int, TAG_OS2, os2),
                cursor_table_inv(b, i as int, TAG_POST, post),
                cursor_table_inv(b, i as int, TAG_LOCA, loca),
                cursor_table_inv(b, i as int, TAG_GLYF, glyf),
                cursor_table_inv(b, i as int, TAG_CVT, cvt),
                cursor_table_inv(b, i as int, TAG_FPGM, fpgm),
                cursor_table_inv(b, i as int, TAG_PREP, prep),
                match cmap {
                    Some(t) => t.wf() && last_tag_index(b, i as int, TAG_CMAP) >= 0
                        && is_cmap_parse(
                        rec_window(b, last_tag_index(b, i as int, TAG_CMAP)),
                        t,
                    ),
                    None => last_tag_index(b, i as int, TAG_CMAP) == -1,
                },
                match hhea {
                    Some(t) => t.wf() && last_tag_index(b, i as int, TAG_HHEA) >= 0 && t.raw@
                        == rec_window(b, last_tag_index(b, i as int, TAG_HHEA)),
                    None => last_tag_index(b, i as int, TAG_HHEA) == -1,
                },
            decreases table_count - i,
        {
            let ghost p = cursor.pos as int;
            let (tag, table_cursor) = match Self::parse_table_record(&mut cursor) {
                Ok(v) => v,
                Err(e) => {
                    proof {
                        reveal(font_ok);
                        if font_ok(b) {
                            assert(rec_ok(b, i as int));
                        }
                    }
                    return Err(e);
                },
            };
            proof {
                assert(rec_tag(b, i as int) == tag);
                assert(rec_window(b, i as int) =~= table_cursor.window());
                assert(rec_ok(b, i as int));
            }
            if tag == TAG_CMAP {
                let parsed = match CmapTable::parse(table_cursor) {
                    Ok(v) => v,
                    Err(e) => {
                        proof {
                            reveal(font_ok);
                        }
                        return Err(e);
                    },
                };
                cmap = Some(parsed);
            } else if tag == TAG_HEAD {
                head = Some(table_cursor);
            } else if tag == TAG_HHEA {
                hhea = Some(
                    match HheaTable::parse(table_cursor) {
                        Ok(v) => v,
                        Err(e) => {
                            proof {
                                reveal(font_ok);
                            }
                            return Err(e);
                        },
                    },
                );
            } else if tag == TAG_HMTX {
                hmtx = Some(table_cursor);
            } else if tag == TAG_MAXP {
                maxp = Some(table_cursor);
            } else if tag == TAG_NAME {
                name = Some(table_cursor);
            } else if tag == TAG_OS2 {
                os2 = Some(table_cursor);
            } else if tag == TAG_POST {
                post = Some(table_cursor);
            } else if tag == TAG_LOCA {
                loca = Some(table_cursor);
            } else if tag == TAG_GLYF {
                glyf = Some(table_cursor);
            } else if tag == TAG_CVT {
                cvt = Some(table_cursor);
            } else if tag == TAG_FPGM {
                fpgm = Some(table_cursor);
            } else if tag == TAG_PREP {
                prep = Some(table_cursor);
            }
            i = i + 1;
        }
        Self::assemble_font(
            Ghost(b),
            Ghost(n),
            cmap,
            head,
            hhea,
            hmtx,
            maxp,
            name,
            os2,
            post,
            loca,
            glyf,
            cvt,
            fpgm,
            prep,
        )
    }

    /// Decodes the cross-table structure out of the collected table windows
    /// and assembles the font, or reports what is missing or malformed.
    #[verifier::loop_isolation(false)]
    #[verifier::rlimit(100)]
    fn assemble_font<'a>(
        Ghost(b): Ghost<Seq<u8>>,
        Ghost(n): Ghost<int>,
        cmap: Option<CmapTable>,
        head: Option<Cursor<'a>>,
        hhea: Option<HheaTable>,
        hmtx: Option<Cursor<'a>>,
        maxp: Option<Cursor<'a>>,
        name: Option<Cursor<'a>>,
        os2: Option<Cursor<'a>>,
        post: Option<Cursor<'a>>,
        loca: Option<Cursor<'a>>,
        glyf: Option<Cursor<'a>>,
        cvt: Option<Cursor<'a>>,
        fpgm: Option<Cursor<'a>>,
        prep: Option<Cursor<'a>>,
    ) -> (r: Result<Font, ParseError>)
        requires
            n == be16_at(b, 4) as int,
            b.len() >= 12 + 16 * n,
            b.len() >= 4,
            be32_at(b, 0) == SFNT_VERSION,
            forall|j: int| 0 <= j < n ==> #[trigger] rec_ok(b, j),
            cursor_table_inv(b, n, TAG_HEAD, head),
            cursor_table_inv(b, n, TAG_HMTX, hmtx),
            cursor_table_inv(b, n, TAG_MAXP, maxp),
            cursor_table_inv(b, n, TAG_NAME, name),
            cursor_table_inv(b, n, TAG_OS2, os2),
            cursor_table_inv(b, n, TAG_POST, post),
            cursor_table_inv(b, n, TAG_LOCA, loca),
            cursor_table_inv(b, n, TAG_GLYF, glyf),
            cursor_table_inv(b, n, TAG_CVT, cvt),
            cursor_table_inv(b, n, TAG_FPGM, fpgm),
            cursor_table_inv(b, n, TAG_PREP, prep),
            match cmap {
                Some(t) => t.wf() && last_tag_index(b, n, TAG_CMAP) >= 0 && is_cmap_parse(
                    rec_window(b, last_tag_index(b, n, TAG_CMAP)),
                    t,
                ),
                None => last_tag_index(b, n, TAG_CMAP) == -1,
            },
            match hhea {
                Some(t) => t.wf() && last_tag_index(b, n, TAG_HHEA) >= 0 && t.raw@ == rec_window(
                    b,
                    last_tag_index(b, n, TAG_HHEA),
                ),
                None => last_tag_index(b, n, TAG_HHEA) == -1,
            },
        ensures
            font_ok(b) ==> r is Ok,
            match r {
                Ok(f) => {
                    &&& f.wf()
                    &&& table_selected(b, n, TAG_HEAD, f.head@)
                    &&& table_selected(b, n, TAG_HHEA, f.hhea.raw@)
                    &&& table_selected(b, n, TAG_HMTX, f.hmtx.raw@)
                    &&& table_selected(b, n, TAG_MAXP, f.maxp@)
                    &&& table_selected(b, n, TAG_NAME, f.name@)
                    &&& table_selected(b, n, TAG_OS2, f.os2@)
                    &&& table_selected(b, n, TAG_POST, f.post@)
                    &&& table_selected(b, n, TAG_LOCA, f.loca.data@)
                    &&& table_selected(b, n, TAG_GLYF, f.glyf@)
                    &&& (exists|i: int|
                        0 <= i < n && #[trigger] rec_tag(b, i) == TAG_CMAP && is_cmap_parse(
                            rec_window(b, i),
                            f.cmap,
                        ))
                    &&& (f.cvt matches Some(v) ==> table_selected(b, n, TAG_CVT, v@))
                    &&& (f.fpgm matches Some(v) ==> table_selected(b, n, TAG_FPGM, v@))
                    &&& (f.prep matches Some(v) ==> table_selected(b, n, TAG_PREP, v@))
                    &&& (f.cvt is Some <==> has_tag(b, n, TAG_CVT))
                    &&& (f.fpgm is Some <==> has_tag(b, n, TAG_FPGM))
                    &&& (f.prep is Some <==> has_tag(b, n, TAG_PREP))
                },
                Err(e) => e.kind == ParseErrorKind::MissingTable ==> e.offset == 0
                    && match e.table {
                    Option::Some(t) => required_sfnt_tag(t.0) && !has_tag(b, n, t.0),
                    Option::None => false,
                },
            },
    {
        proof {
            lemma_last_tag_index(b, n, TAG_CMAP);
            lemma_last_tag_index(b, n, TAG_HEAD);
            lemma_last_tag_index(b, n, TAG_HHEA);
            lemma_last_tag_index(b, n, TAG_HMTX);
            lemma_last_tag_index(b, n, TAG_MAXP);
            lemma_last_tag_index(b, n, TAG_NAME);
            lemma_last_tag_index(b, n, TAG_OS2);
            lemma_last_tag_index(b, n, TAG_POST);
            lemma_last_tag_index(b, n, TAG_LOCA);
            lemma_last_tag_index(b, n, TAG_GLYF);
            lemma_last_tag_index(b, n, TAG_CVT);
            lemma_last_tag_index(b, n, TAG_FPGM);
            lemma_last_tag_index(b, n, TAG_PREP);
        }
        let head = match head {
            Some(c) => c,
            None => {
                proof {
                    reveal(font_ok);
                }
                return Err(ParseError::missing_table(TAG_HEAD));
            },
        };
        proof {
            assert(head.window() =~= rec_window(b, last_tag_index(b, n, TAG_HEAD)));
        }
        let loca_format = match Self::parse_loca_format(head) {
            Ok(v) => v,
            Err(e) => {
                proof {
                    reveal(font_ok);
                }
                return Err(e);
            },
        };
        let maxp = match maxp {
            Some(c) => c,
            None => {
                proof {
                    reveal(font_ok);
                }
                return Err(ParseError::missing_table(TAG_MAXP));
            },
        };
        proof {
            assert(maxp.window() =~= rec_window(b, last_tag_index(b, n, TAG_MAXP)));
        }
        let glyph_count = match Self::parse_glyph_count(maxp) {
            Ok(v) => v,
            Err(e) => {
                proof {
                    reveal(font_ok);
                }
                return Err(e);
            },
        };
        let loca = match loca {
            Some(c) => c,
            None => {
                proof {
                    reveal(font_ok);
                }
                return Err(ParseError::missing_table(TAG_LOCA));
            },
        };
        proof {
            assert(loca.window() =~= rec_window(b, last_tag_index(b, n, TAG_LOCA)));
        }
        let loca = match LocaTable::new(loca_format, glyph_count, loca) {
            Ok(v) => v,
            Err(e) => {
                proof {
                    reveal(font_ok);
                }
                return Err(e);
            },
        };
        let hhea = match hhea {
            Some(t) => t,
            None => {
                proof {
                    reveal(font_ok);
                }
                return Err(ParseError::missing_table(TAG_HHEA));
            },
        };
        let hmtx = match hmtx {
            Some(c) => c,
            None => {
                proof {
                    reveal(font_ok);
                }
                return Err(ParseError::missing_table(TAG_HMTX));
            },
        };
        let hmtx = HmtxTable {
            raw: hmtx.rest_vec(),
            number_of_h_metrics: hhea.number_of_h_metrics,
        };
        let cmap = match cmap {
            Some(t) => t,
            None => {
                proof {
                    reveal(font_ok);
                }
                return Err(ParseError::missing_table(TAG_CMAP));
            },
        };
        let name = match name {
            Some(c) => c,
            None => {
                proof {
                    reveal(font_ok);
                }
                return Err(ParseError::missing_table(TAG_NAME));
            },
        };
        let os2 = match os2 {
            Some(c) => c,
            None => {
                proof {
                    reveal(font_ok);
                }
                return Err(ParseError::missing_table(TAG_OS2));
            },
        };
        let post = match post {
            Some(c) => c,
            None => {
                proof {
                    reveal(font_ok);
                }
                return Err(ParseError::missing_table(TAG_POST));
            },
        };
        let post_len = post.end - post.pos;
        if post_len < 32 {
            proof {
                reveal(font_ok);
                assert(post.window() =~= rec_window(b, last_tag_index(b, n, TAG_POST)));
            }
            return Err(
                post.err(ParseErrorKind::UnexpectedTableLen { expected: 32, actual: post_len }),
            );
        }
        let glyf = match glyf {
            Some(c) => c,
            None => {
                proof {
                    reveal(font_ok);
                }
                return Err(ParseError::missing_table(TAG_GLYF));
            },
        };

        Ok(
            Font {
                cmap,
                head: head.rest_vec(),
                hhea,
                hmtx,
                maxp: maxp.rest_vec(),
                name: name.rest_vec(),
                os2: os2.rest_vec(),
                post: post.rest_vec(),
                loca,
                glyf: glyf.rest_vec(),
                cvt: match cvt {
                    Some(c) => Some(c.rest_vec()),
                    None => None,
                },
                fpgm: match fpgm {
                    Some(c) => Some(c.rest_vec()),
                    None => None,
                },
                prep: match prep {
                    Some(c) => Some(c.rest_vec()),
                    None => None,
                },
                glyph_count,
            },
        )
    }
}

/// A stored table cursor covers the window some already-scanned directory
/// record with the right tag selects.
pub(crate) open spec fn cursor_table_inv<'a>(
    b: Seq<u8>,
    n: int,
    tag: u32,
    oc: Option<Cursor<'a>>,
) -> bool {
    match oc {
        Some(c) => {
            let li = last_tag_index(b, n, tag);
            &&& c.wf()
            &&& c.bytes@ == b
            &&& c.off0 == 0
            &&& li >= 0
            &&& c.pos == rec_off(b, li)
            &&& c.end == rec_off(b, li) + rec_len(b, li)
        },
        None => last_tag_index(b, n, tag) == -1,
    }
}

} // verus!
