//! `cmap` table processing: the two supported subtable formats and
//! character-to-glyph lookup.

use vstd::prelude::*;

use crate::cursor::{be16_at, be32_at, Cursor};
use crate::errors::{MapError, ParseError, ParseErrorKind};

verus! {

/// `u16` addition modulo `2^16`.
pub open spec fn wadd16(a: u16, b: u16) -> u16 {
    ((a + b) % 0x1_0000) as u16
}

/// `u16` subtraction modulo `2^16`.
pub open spec fn wsub16(a: u16, b: u16) -> u16 {
    ((a - b) % 0x1_0000) as u16
}

/// One segment of a format 4 (segment mapping to delta values) subtable.
#[derive(Debug, Clone, Copy, PartialEq, Eq, Structural)]
pub struct SegmentWithDelta {
    pub start_code: u16,
    pub end_code: u16,
    pub id_delta: u16,
    pub id_range_offset: u16,
}

/// Segment mapping to delta values (format 4) subtable of the `cmap` table.
#[derive(Debug, Clone)]
pub struct SegmentDeltas {
    pub segments: Vec<SegmentWithDelta>,
    pub glyph_id_array: Vec<u8>,
}

/// One group of a format 12 (segmented coverage) subtable.
#[derive(Debug, Clone, Copy, PartialEq, Eq, Structural)]
pub struct SequentialMapGroup {
    pub start_char_code: u32,
    pub end_char_code: u32,
    pub start_glyph_id: u32,
}

impl SequentialMapGroup {
    /// The glyph this group assigns to `ch`, ignoring group bounds, narrowed to
    /// 16 bits.
    pub open spec fn spec_map_unchecked(self, c: u32) -> u16
        recommends
            self.start_char_code <= c,
    {
        ((c - self.start_char_code + self.start_glyph_id) % 0x1_0000) as u16
    }

    /// The glyph id `ch` maps to when it lies in this group, before narrowing.
    pub fn map_unchecked(&self, ch: char) -> (r: u64)
        requires
            self.start_char_code <= ch as u32,
        ensures
            r == ch as u32 - self.start_char_code + self.start_glyph_id,
    {
        (ch as u32 - self.start_char_code) as u64 + self.start_glyph_id as u64
    }
}

/// Segmented coverage (format 12) subtable of the `cmap` table.
#[derive(Debug, Clone)]
pub struct SegmentedCoverage {
    pub groups: Vec<SequentialMapGroup>,
}

/// A parsed `cmap` table: the first supported subtable that was encountered.
#[derive(Debug, Clone)]
pub enum CmapTable {
    /// Format 4 subtable.
    Deltas(SegmentDeltas),
    /// Format 12 subtable.
    Coverage(SegmentedCoverage),
}

/// Format 4 segments sorted strictly by end code (as valid fonts have them).
pub open spec fn segments_sorted(segs: Seq<SegmentWithDelta>) -> bool {
    forall|i: int, j: int|
        0 <= i < j < segs.len() ==> (#[trigger] segs[i]).end_code < (#[trigger] segs[j]).end_code
}

/// Format 12 groups sorted strictly by end char code.
pub open spec fn groups_sorted(groups: Seq<SequentialMapGroup>) -> bool {
    forall|i: int, j: int|
        0 <= i < j < groups.len() ==> (#[trigger] groups[i]).end_char_code < (
        #[trigger] groups[j]).end_char_code
}

/// Index of the first segment whose end code is at least `c`, scanning from `i`;
/// `segs.len()` when there is none.
pub open spec fn seg_lower_bound(segs: Seq<SegmentWithDelta>, c: u16, i: int) -> int
    decreases segs.len() - i when 0 <= i <= segs.len()
{
    if i >= segs.len() {
        segs.len() as int
    } else if segs[i].end_code >= c {
        i
    } else {
        seg_lower_bound(segs, c, i + 1)
    }
}

/// Index of the first group whose end char code is at least `c`, scanning from
/// `i`; `groups.len()` when there is none.
pub open spec fn group_lower_bound(groups: Seq<SequentialMapGroup>, c: u32, i: int) -> int
    decreases groups.len() - i when 0 <= i <= groups.len()
{
    if i >= groups.len() {
        groups.len() as int
    } else if groups[i].end_char_code >= c {
        i
    } else {
        group_lower_bound(groups, c, i + 1)
    }
}

pub(crate) proof fn lemma_seg_lower_bound(segs: Seq<SegmentWithDelta>, c: u16, i: int, k: int)
    requires
        0 <= i <= k <= segs.len(),
        forall|j: int| i <= j < k ==> (#[trigger] segs[j]).end_code < c,
        k == segs.len() || segs[k].end_code >= c,
    ensures
        seg_lower_bound(segs, c, i) == k,
    decreases k - i,
{
    if i < k {
        lemma_seg_lower_bound(segs, c, i + 1, k);
    }
}

pub(crate) proof fn lemma_group_lower_bound(groups: Seq<SequentialMapGroup>, c: u32, i: int, k: int)
    requires
        0 <= i <= k <= groups.len(),
        forall|j: int| i <= j < k ==> (#[trigger] groups[j]).end_char_code < c,
        k == groups.len() || groups[k].end_char_code >= c,
    ensures
        group_lower_bound(groups, c, i) == k,
    decreases k - i,
{
    if i < k {
        lemma_group_lower_bound(groups, c, i + 1, k);
    }
}

/// The format 4 lookup of §`cmap` semantics: find the first segment with
/// `end_code >= c`; below its start means the missing glyph; a zero range
/// offset maps through the delta; otherwise the glyph id is read out of
/// `glyph_id_array`.
pub open spec fn deltas_map_spec(
    segs: Seq<SegmentWithDelta>,
    gia: Seq<u8>,
    c: u16,
) -> Result<u16, MapError> {
    let i = seg_lower_bound(segs, c, 0);
    if i == segs.len() {
        Ok(0u16)
    } else {
        let seg = segs[i];
        if seg.start_code > c {
            Ok(0u16)
        } else if seg.id_range_offset == 0 {
            Ok(wadd16(seg.id_delta, c))
        } else {
            let byte_offset = 2 * i + seg.id_range_offset + 2 * (c - seg.start_code);
            if byte_offset < 2 * segs.len() {
                Err(MapError::InvalidOffset)
            } else {
                let rel = byte_offset - 2 * segs.len();
                if rel + 2 <= gia.len() {
                    Ok(wadd16(seg.id_delta, be16_at(gia, rel)))
                } else {
                    Err(MapError::InvalidOffset)
                }
            }
        }
    }
}

/// The format 12 lookup: find the first group with `end_char_code >= c`; below
/// its start (or past the last group) means the missing glyph; otherwise the
/// group maps `c` sequentially, narrowed to 16 bits.
pub open spec fn coverage_map_spec(groups: Seq<SequentialMapGroup>, c: u32) -> u16 {
    let i = group_lower_bound(groups, c, 0);
    if i == groups.len() {
        0u16
    } else if groups[i].start_char_code > c {
        0u16
    } else {
        groups[i].spec_map_unchecked(c)
    }
}


/// The window holds a structurally valid format 4 subtable: correct format
/// word, a length that covers the header, the four segment arrays, and lies
/// within the window.
pub open spec fn format4_ok(w: Seq<u8>) -> bool {
    let len16 = be16_at(w, 2) as int;
    let n = be16_at(w, 6) as int / 2;
    &&& w.len() >= 4
    &&& be16_at(w, 0) == 4
    &&& len16 >= 4
    &&& len16 <= w.len()
    &&& len16 >= 16 + 8 * n
}

/// `segs` and `gia` are exactly the segment arrays and trailing glyph-id blob
/// of the format 4 subtable at the start of `w`.
pub open spec fn is_format4_parse(w: Seq<u8>, segs: Seq<SegmentWithDelta>, gia: Seq<u8>) -> bool {
    let len16 = be16_at(w, 2) as int;
    let n = be16_at(w, 6) as int / 2;
    &&& format4_ok(w)
    &&& segs.len() == n
    &&& (forall|k: int|
        0 <= k < n ==> (#[trigger] segs[k]) == (SegmentWithDelta {
            start_code: be16_at(w, 16 + 2 * n + 2 * k),
            end_code: be16_at(w, 14 + 2 * k),
            id_delta: be16_at(w, 16 + 4 * n + 2 * k),
            id_range_offset: be16_at(w, 16 + 6 * n + 2 * k),
        }))
    &&& gia == w.subrange(16 + 8 * n, len16)
}

/// The window holds a structurally valid format 12 subtable.
pub open spec fn format12_ok(w: Seq<u8>) -> bool {
    let len32 = be32_at(w, 4) as int;
    let n = be32_at(w, 12) as int;
    &&& w.len() >= 8
    &&& be16_at(w, 0) == 12
    &&& len32 >= 8
    &&& len32 <= w.len()
    &&& len32 >= 16 + 12 * n
}

/// `groups` are exactly the sequential map groups of the format 12 subtable at
/// the start of `w`.
pub open spec fn is_format12_parse(w: Seq<u8>, groups: Seq<SequentialMapGroup>) -> bool {
    let n = be32_at(w, 12) as int;
    &&& format12_ok(w)
    &&& groups.len() == n
    &&& (forall|k: int|
        0 <= k < n ==> (#[trigger] groups[k]) == (SequentialMapGroup {
            start_char_code: be32_at(w, 16 + 12 * k),
            end_char_code: be32_at(w, 20 + 12 * k),
            start_glyph_id: be32_at(w, 24 + 12 * k),
        }))
}

/// The first subtable record (scanning from `i` of `n`) whose platform and
/// encoding ids name a supported format; `true` stands for format 4.
pub open spec fn first_candidate(w: Seq<u8>, i: int, n: int) -> Option<(int, bool)>
    decreases n - i when i <= n
{
    if i >= n {
        None
    } else {
        let p = be16_at(w, 4 + 8 * i);
        let e = be16_at(w, 6 + 8 * i);
        if (p == 0 && e == 3) || (p == 3 && e == 1) {
            Some((i, true))
        } else if (p == 0 && e == 4) || (p == 3 && e == 10) {
            Some((i, false))
        } else {
            first_candidate(w, i + 1, n)
        }
    }
}

proof fn lemma_first_candidate_split(w: Seq<u8>, a: int, b: int, c: int)
    requires
        0 <= a <= b <= c,
    ensures
        first_candidate(w, a, c) == if first_candidate(w, a, b) is Some {
            first_candidate(w, a, b)
        } else {
            first_candidate(w, b, c)
        },
    decreases b - a,
{
    if a < b {
        lemma_first_candidate_split(w, a + 1, b, c);
    }
}

/// The whole `cmap` table parses: version 0, a complete record list, a first
/// supported candidate whose subtable itself parses.
pub open spec fn cmap_ok(w: Seq<u8>) -> bool {
    let n = be16_at(w, 2) as int;
    &&& w.len() >= 4 + 8 * n
    &&& be16_at(w, 0) == 0
    &&& match first_candidate(w, 0, n) {
        Some((i, is_deltas)) => {
            let off = be32_at(w, 8 + 8 * i) as int;
            &&& off <= w.len()
            &&& if is_deltas {
                format4_ok(w.subrange(off, w.len() as int))
            } else {
                format12_ok(w.subrange(off, w.len() as int))
            }
        },
        None => false,
    }
}

/// `t` is the parse of the `cmap` table in `w`: the subtable of the first
/// supported candidate record.
pub open spec fn is_cmap_parse(w: Seq<u8>, t: CmapTable) -> bool {
    let n = be16_at(w, 2) as int;
    &&& w.len() >= 4 + 8 * n
    &&& be16_at(w, 0) == 0
    &&& match first_candidate(w, 0, n) {
        Some((i, is_deltas)) => {
            let off = be32_at(w, 8 + 8 * i) as int;
            &&& off <= w.len()
            &&& match t {
                CmapTable::Deltas(sd) => is_deltas && is_format4_parse(
                    w.subrange(off, w.len() as int),
                    sd.segments@,
                    sd.glyph_id_array@,
                ),
                CmapTable::Coverage(cv) => !is_deltas && is_format12_parse(
                    w.subrange(off, w.len() as int),
                    cv.groups@,
                ),
            }
        },
        None => false,
    }
}

impl SegmentDeltas {
    /// Segment count fits the 16-bit `segCountX2` field.
    pub open spec fn wf(self) -> bool {
        self.segments@.len() <= 0x7FFF
    }

    pub open spec fn spec_map_char(self, c: u16) -> Result<u16, MapError> {
        deltas_map_spec(self.segments@, self.glyph_id_array@, c)
    }

    /// Looks up the glyph for `c`, per the format 4 semantics.
    pub fn map_char(&self, c: char) -> (r: Result<u16, MapError>)
        requires
            self.wf(),
        ensures
            c as u32 > 0xFFFF ==> r == Err::<u16, MapError>(MapError::CharTooLarge),
            c as u32 <= 0xFFFF && segments_sorted(self.segments@) ==> r == self.spec_map_char(
                c as u16,
            ),
    {
        let c32 = c as u32;
        if c32 > 0xFFFF {
            return Err(MapError::CharTooLarge);
        }
        let c16 = c32 as u16;
        let ghost segs = self.segments@;
        let ghost sorted = segments_sorted(segs);

        let len = self.segments.len();
        let mut lo: usize = 0;
        let mut hi: usize = len;
        while lo < hi
            invariant
                0 <= lo <= hi <= len,
                segs == self.segments@,
                len == segs.len(),
                sorted == segments_sorted(segs),
                sorted ==> forall|j: int| 0 <= j < lo ==> (#[trigger] segs[j]).end_code < c16,
                sorted ==> forall|j: int|
                    hi <= j < len ==> (#[trigger] segs[j]).end_code >= c16,
            decreases hi - lo,
        {
            let mid = lo + (hi - lo) / 2;
            if self.segments[mid].end_code < c16 {
                proof {
                    if sorted {
                        assert(forall|j: int|
                            0 <= j <= mid ==> (#[trigger] segs[j]).end_code <= segs[mid as int].end_code);
                    }
                }
                lo = mid + 1;
            } else {
                proof {
                    if sorted {
                        assert(forall|j: int|
                            mid <= j < len ==> (#[trigger] segs[j]).end_code >= segs[mid as int].end_code);
                    }
                }
                hi = mid;
            }
        }
        proof {
            if sorted {
                lemma_seg_lower_bound(segs, c16, 0, lo as int);
            }
        }
        if lo == len {
            return Ok(0);  // no segment covers `c`: the missing glyph
        }
        let seg = self.segments[lo];
        if seg.start_code > c16 {
            return Ok(0);  // missing glyph
        }
        if seg.id_range_offset == 0 {
            Ok(seg.id_delta.wrapping_add(c16))
        } else {
            // Offset is counted from the start of `idRangeOffsets`.
            let byte_offset: u32 = 2 * (lo as u32) + (seg.id_range_offset as u32) + 2 * ((c16
                - seg.start_code) as u32);
            if byte_offset < 2 * (len as u32) {
                return Err(MapError::InvalidOffset);
            }
            // Shift the offset to count from the start of `glyphIdArray`.
            let rel = (byte_offset - 2 * (len as u32)) as usize;
            if rel + 2 > self.glyph_id_array.len() {
                return Err(MapError::InvalidOffset);
            }
            let b0 = self.glyph_id_array[rel];
            let b1 = self.glyph_id_array[rel + 1];
            let glyph_id = (b0 as u16) * 0x100 + (b1 as u16);
            Ok(seg.id_delta.wrapping_add(glyph_id))
        }
    }
}

impl SegmentedCoverage {
    pub open spec fn spec_map_char(self, c: u32) -> u16 {
        coverage_map_spec(self.groups@, c)
    }

    /// Looks up the glyph for `ch`, per the format 12 semantics.
    pub fn map_char(&self, ch: char) -> (r: u16)
        ensures
            groups_sorted(self.groups@) ==> r == self.spec_map_char(ch as u32),
    {
        let c = ch as u32;
        let ghost groups = self.groups@;
        let ghost sorted = groups_sorted(groups);

        let len = self.groups.len();
        let mut lo: usize = 0;
        let mut hi: usize = len;
        while lo < hi
            invariant
                0 <= lo <= hi <= len,
                groups == self.groups@,
                len == groups.len(),
                sorted == groups_sorted(groups),
                sorted ==> forall|j: int|
                    0 <= j < lo ==> (#[trigger] groups[j]).end_char_code < c,
                sorted ==> forall|j: int|
                    hi <= j < len ==> (#[trigger] groups[j]).end_char_code >= c,
            decreases hi - lo,
        {
            let mid = lo + (hi - lo) / 2;
            if self.groups[mid].end_char_code < c {
                proof {
                    if sorted {
                        assert(forall|j: int|
                            0 <= j <= mid ==> (#[trigger] groups[j]).end_char_code <= groups[mid as int].end_char_code);
                    }
                }
                lo = mid + 1;
            } else {
                proof {
                    if sorted {
                        assert(forall|j: int|
                            mid <= j < len ==> (#[trigger] groups[j]).end_char_code >= groups[mid as int].end_char_code);
                    }
                }
                hi = mid;
            }
        }
        proof {
            if sorted {
                lemma_group_lower_bound(groups, c, 0, lo as int);
            }
        }
        if lo == len {
            return 0;  // `ch` exceeds the end char code of the last group
        }
        let group = self.groups[lo];
        if group.start_char_code > c {
            return 0;  // missing glyph
        }
        let glyph_id = group.map_unchecked(ch);
        (glyph_id % 0x1_0000) as u16
    }
}

impl CmapTable {
    pub open spec fn wf(self) -> bool {
        match self {
            CmapTable::Deltas(sd) => sd.wf(),
            CmapTable::Coverage(_) => true,
        }
    }

    /// The subtable's arrays are sorted as the OpenType format requires.
    pub open spec fn sorted(self) -> bool {
        match self {
            CmapTable::Deltas(sd) => segments_sorted(sd.segments@),
            CmapTable::Coverage(cv) => groups_sorted(cv.groups@),
        }
    }

    /// The character-to-glyph function this table denotes.
    pub open spec fn spec_map_char(self, ch: char) -> Result<u16, MapError> {
        match self {
            CmapTable::Deltas(sd) => if ch as u32 > 0xFFFF {
                Err(MapError::CharTooLarge)
            } else {
                sd.spec_map_char(ch as u16)
            },
            CmapTable::Coverage(cv) => Ok(cv.spec_map_char(ch as u32)),
        }
    }

    /// Looks up the glyph index for `ch` in the subtable.
    pub fn map_char(&self, ch: char) -> (r: Result<u16, MapError>)
        requires
            self.wf(),
        ensures
            self.sorted() ==> r == self.spec_map_char(ch),
            self matches CmapTable::Coverage(_) ==> r is Ok,
            ch as u32 > 0xFFFF && (self matches CmapTable::Deltas(_)) ==> r == Err::<
                u16,
                MapError,
            >(MapError::CharTooLarge),
    {
        match self {
            CmapTable::Deltas(deltas) => deltas.map_char(ch),
            CmapTable::Coverage(coverage) => Ok(coverage.map_char(ch)),
        }
    }
}


impl SegmentDeltas {
    /// Parses a format 4 subtable from the start of the cursor's window.
    #[verifier::loop_isolation(false)]
    pub(crate) fn parse(c: Cursor<'_>) -> (r: Result<SegmentDeltas, ParseError>)
        requires
            c.wf(),
        ensures
            match r {
                Ok(sd) => sd.wf() && is_format4_parse(
                    c.window(),
                    sd.segments@,
                    sd.glyph_id_array@,
                ),
                Err(e) => !format4_ok(c.window()) && !(e.kind is MissingTable),
            },
    {
        let ghost w = c.window();
        let ghost base = c.pos as int;
        let mut cursor = c;

        let format_offset = cursor.off0 + cursor.pos;
        let format = cursor.read_u16()?;
        if format != 4 {
            return Err(
                ParseError {
                    kind: ParseErrorKind::UnexpectedTableFormat(format),
                    offset: format_offset,
                    table: cursor.table,
                },
            );
        }
        let len_offset = cursor.off0 + cursor.pos;
        let subtable_len = cursor.read_u16()?;
        assert(subtable_len == be16_at(w, 2));
        if subtable_len < 4 {
            return Err(
                ParseError {
                    kind: ParseErrorKind::UnexpectedEof,
                    offset: len_offset,
                    table: cursor.table,
                },
            );
        }
        let remaining_len = (subtable_len - 4) as usize;
        let mut cursor = cursor.range(0, remaining_len)?;

        cursor.skip(2)?;  // language
        let seg_count_x2 = cursor.read_u16()?;
        assert(seg_count_x2 == be16_at(w, 6));
        let segment_count = (seg_count_x2 / 2) as usize;
        let ghost n = segment_count as int;
        cursor.skip(6)?;  // searchRange, entrySelector, rangeShift

        let vec_len = 2 * segment_count;
        let mut end_codes = cursor.split_at(vec_len)?;
        cursor.skip(2)?;  // reserved padding
        let mut start_codes = cursor.split_at(vec_len)?;
        let mut id_deltas = cursor.split_at(vec_len)?;
        let mut id_range_offsets = cursor.split_at(vec_len)?;

        let mut segments: Vec<SegmentWithDelta> = Vec::new();
        let mut k: usize = 0;
        while k < segment_count
            invariant
                0 <= k <= segment_count,
                end_codes.bytes@ == c.bytes@,
                end_codes.pos == base + 14 + 2 * k,
                end_codes.end == base + 14 + 2 * n,
                start_codes.bytes@ == c.bytes@,
                start_codes.pos == base + 16 + 2 * n + 2 * k,
                start_codes.end == base + 16 + 4 * n,
                id_deltas.bytes@ == c.bytes@,
                id_deltas.pos == base + 16 + 4 * n + 2 * k,
                id_deltas.end == base + 16 + 6 * n,
                id_range_offsets.bytes@ == c.bytes@,
                id_range_offsets.pos == base + 16 + 6 * n + 2 * k,
                id_range_offsets.end == base + 16 + 8 * n,
                end_codes.wf(),
                start_codes.wf(),
                id_deltas.wf(),
                id_range_offsets.wf(),
                segments@.len() == k,
                forall|j: int|
                    0 <= j < k ==> (#[trigger] segments@[j]) == (SegmentWithDelta {
                        start_code: be16_at(w, 16 + 2 * n + 2 * j),
                        end_code: be16_at(w, 14 + 2 * j),
                        id_delta: be16_at(w, 16 + 4 * n + 2 * j),
                        id_range_offset: be16_at(w, 16 + 6 * n + 2 * j),
                    }),
            decreases segment_count - k,
        {
            let end_code = end_codes.read_u16()?;
            let start_code = start_codes.read_u16()?;
            let id_delta = id_deltas.read_u16()?;
            let id_range_offset = id_range_offsets.read_u16()?;
            assert(end_code == be16_at(w, 14 + 2 * k));
            assert(start_code == be16_at(w, 16 + 2 * n + 2 * k));
            assert(id_delta == be16_at(w, 16 + 4 * n + 2 * k));
            assert(id_range_offset == be16_at(w, 16 + 6 * n + 2 * k));
            segments.push(SegmentWithDelta { start_code, end_code, id_delta, id_range_offset });
            k = k + 1;
        }

        let glyph_id_array = cursor.rest_vec();
        assert(glyph_id_array@ =~= w.subrange(16 + 8 * n, subtable_len as int));
        Ok(SegmentDeltas { segments, glyph_id_array })
    }
}

impl SegmentedCoverage {
    /// Parses a format 12 subtable from the start of the cursor's window.
    #[verifier::loop_isolation(false)]
    pub(crate) fn parse(c: Cursor<'_>) -> (r: Result<SegmentedCoverage, ParseError>)
        requires
            c.wf(),
        ensures
            match r {
                Ok(cv) => is_format12_parse(c.window(), cv.groups@),
                Err(e) => !format12_ok(c.window()) && !(e.kind is MissingTable),
            },
    {
        let ghost w = c.window();
        let ghost base = c.pos as int;
        let mut cursor = c;

        let format_offset = cursor.off0 + cursor.pos;
        let format = cursor.read_u16()?;
        if format != 12 {
            return Err(
                ParseError {
                    kind: ParseErrorKind::UnexpectedTableFormat(format),
                    offset: format_offset,
                    table: cursor.table,
                },
            );
        }
        cursor.skip(2)?;  // reserved

        let len_offset = cursor.off0 + cursor.pos;
        let subtable_len = cursor.read_u32()?;
        assert(subtable_len == be32_at(w, 4));
        if subtable_len < 8 {
            return Err(
                ParseError {
                    kind: ParseErrorKind::UnexpectedEof,
                    offset: len_offset,
                    table: cursor.table,
                },
            );
        }
        let remaining_u32 = subtable_len - 8;
        if remaining_u32 as usize > cursor.end - cursor.pos {
            return Err(
                ParseError {
                    kind: ParseErrorKind::RangeOutOfBounds {
                        start: 0,
                        end: remaining_u32 as usize,
                        len: cursor.end - cursor.pos,
                    },
                    offset: cursor.off0 + cursor.pos,
                    table: cursor.table,
                },
            );
        }
        let mut cursor = cursor.range(0, remaining_u32 as usize)?;

        cursor.skip(4)?;  // language
        let num_groups = cursor.read_u32()?;
        assert(num_groups == be32_at(w, 12));
        let ghost g = num_groups as int;

        let group_count = num_groups as usize;
        let mut groups: Vec<SequentialMapGroup> = Vec::new();
        let mut k: usize = 0;
        while k < group_count
            invariant
                0 <= k <= group_count,
                cursor.bytes@ == c.bytes@,
                cursor.pos == base + 16 + 12 * k,
                cursor.end == base + subtable_len,
                cursor.wf(),
                groups@.len() == k,
                forall|j: int|
                    0 <= j < k ==> (#[trigger] groups@[j]) == (SequentialMapGroup {
                        start_char_code: be32_at(w, 16 + 12 * j),
                        end_char_code: be32_at(w, 20 + 12 * j),
                        start_glyph_id: be32_at(w, 24 + 12 * j),
                    }),
            decreases group_count - k,
        {
            let start_char_code = cursor.read_u32()?;
            let end_char_code = cursor.read_u32()?;
            let start_glyph_id = cursor.read_u32()?;
            assert(start_char_code == be32_at(w, 16 + 12 * k));
            assert(end_char_code == be32_at(w, 20 + 12 * k));
            assert(start_glyph_id == be32_at(w, 24 + 12 * k));
            groups.push(SequentialMapGroup { start_char_code, end_char_code, start_glyph_id });
            k = k + 1;
        }

        Ok(SegmentedCoverage { groups })
    }
}

impl CmapTable {
    /// Parses the `cmap` table: scans the subtable records and decodes the
    /// first supported candidate.
    #[verifier::loop_isolation(false)]
    #[verifier::rlimit(60)]
    pub(crate) fn parse(c: Cursor<'_>) -> (r: Result<CmapTable, ParseError>)
        requires
            c.wf(),
        ensures
            match r {
                Ok(t) => t.wf() && is_cmap_parse(c.window(), t),
                Err(e) => !cmap_ok(c.window()) && !(e.kind is MissingTable),
            },
            c.window().len() >= 2 && be16_at(c.window(), 0) != 0 ==> (r matches Err(e) && e.kind
                == ParseErrorKind::UnexpectedTableVersion(be16_at(c.window(), 0) as u32)),
            ({
                let w = c.window();
                let n = be16_at(w, 2) as int;
                w.len() >= 4 && be16_at(w, 0) == 0 && w.len() >= 4 + 8 * n && first_candidate(
                    w,
                    0,
                    n,
                ) is None
            }) ==> (r matches Err(e) && e.kind == ParseErrorKind::NoSupportedCmap),
    {
        let ghost w = c.window();
        let ghost base = c.pos as int;
        let table_cursor = c;
        let mut cursor = c;

        let version_offset = cursor.off0 + cursor.pos;
        let version = cursor.read_u16()?;
        if version != 0 {
            return Err(
                ParseError {
                    kind: ParseErrorKind::UnexpectedTableVersion(version as u32),
                    offset: version_offset,
                    table: cursor.table,
                },
            );
        }
        let num_tables_u16 = cursor.read_u16()?;
        assert(num_tables_u16 == be16_at(w, 2));
        let num_tables = num_tables_u16 as usize;
        let ghost n = num_tables as int;

        let mut this: Option<CmapTable> = None;
        let ghost mut cand: (int, bool) = (0int, true);
        let mut i: usize = 0;
        while i < num_tables
            invariant
                0 <= i <= num_tables,
                cursor.bytes@ == c.bytes@,
                cursor.pos == base + 4 + 8 * i,
                cursor.end == base + w.len(),
                cursor.wf(),
                cursor.off0 == c.off0,
                cursor.table == c.table,
                match this {
                    None => first_candidate(w, 0, i as int) is None,
                    Some(t) => {
                        &&& first_candidate(w, 0, i as int) == Some(cand)
                        &&& t.wf()
                        &&& ({
                            let off = be32_at(w, 8 + 8 * cand.0) as int;
                            &&& off <= w.len()
                            &&& match t {
                                CmapTable::Deltas(sd) => cand.1 && is_format4_parse(
                                    w.subrange(off, w.len() as int),
                                    sd.segments@,
                                    sd.glyph_id_array@,
                                ),
                                CmapTable::Coverage(cv) => !cand.1 && is_format12_parse(
                                    w.subrange(off, w.len() as int),
                                    cv.groups@,
                                ),
                            }
                        })
                    },
                },
            decreases num_tables - i,
        {
            proof {
                lemma_first_candidate_split(w, 0, i as int, n);
            }
            let platform_id = cursor.read_u16()?;
            let encoding_id = cursor.read_u16()?;
            let offset = cursor.read_u32()?;
            assert(platform_id == be16_at(w, 4 + 8 * i));
            assert(encoding_id == be16_at(w, 6 + 8 * i));
            assert(offset == be32_at(w, 8 + 8 * i));

            let is_deltas_candidate = (platform_id == 0 && encoding_id == 3) || (platform_id == 3
                && encoding_id == 1);
            let is_coverage_candidate = (platform_id == 0 && encoding_id == 4) || (platform_id == 3
                && encoding_id == 10);

            if is_deltas_candidate && this.is_none() {
                proof {
                    cand = (i as int, true);
                }
                let mut subtable = table_cursor;
                subtable.skip(offset as usize)?;
                let deltas = SegmentDeltas::parse(subtable)?;
                assert(subtable.window() =~= w.subrange(offset as int, w.len() as int));
                this = Some(CmapTable::Deltas(deltas));
            } else if is_coverage_candidate && this.is_none() {
                proof {
                    cand = (i as int, false);
                }
                let mut subtable = table_cursor;
                subtable.skip(offset as usize)?;
                let coverage = SegmentedCoverage::parse(subtable)?;
                assert(subtable.window() =~= w.subrange(offset as int, w.len() as int));
                this = Some(CmapTable::Coverage(coverage));
            }
            proof {
                assert(first_candidate(w, i + 1, i + 1) is None);
                if this is None {
                    assert(first_candidate(w, i as int, i + 1) is None);
                }
                lemma_first_candidate_split(w, 0, i as int, i + 1);
            }
            i = i + 1;
        }
        proof {
            lemma_first_candidate_split(w, 0, n, n);
        }

        match this {
            Some(t) => Ok(t),
            None => Err(cursor.err(ParseErrorKind::NoSupportedCmap)),
        }
    }
}

} // verus!
