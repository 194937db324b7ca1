//! Serialization of a [`FontSubset`](crate::FontSubset): table writers, the
//! OpenType container, and the WOFF2 container.

use vstd::multiset::Multiset;
use vstd::prelude::*;

use crate::cmap::{
    coverage_map_spec, deltas_map_spec, lemma_group_lower_bound, lemma_seg_lower_bound, wadd16,
    wsub16, CmapTable, SegmentDeltas, SegmentWithDelta, SegmentedCoverage, SequentialMapGroup,
};
use crate::errors::MapError;
use crate::checksum::{
    checksum, checksum_from, lemma_checksum_concat, lemma_wadd_assoc, lemma_wadd_comm,
    lemma_wadd_zero, lemma_wsub_wadd, lemma_wsub_zero, spec_checksum, wadd, wadd_exec, word_at,
    wsub, wsub_exec,
};
use crate::cursor::{be16_at, be32_at, u16_bytes, u32_bytes};
use crate::tag::TableTag;
use crate::font::{
    rec_checksum, rec_len, rec_off, rec_ok, rec_tag, rec_window, HheaTable, LocaFormat,
    SFNT_CHECKSUM, SFNT_VERSION,
};
use crate::tag::TAG_HEAD;
use crate::subset::{chars_ascending, FontSubset};
use crate::tag::{TAG_CMAP, TAG_CVT, TAG_FPGM, TAG_GLYF, TAG_HHEA, TAG_HMTX, TAG_LOCA, TAG_MAXP, TAG_NAME, TAG_OS2, TAG_POST, TAG_PREP};
use vstd::slice::slice_to_vec;
use crate::glyph::{
    component_bytes, components_bytes, glyph_bytes, Glyph, GlyphComponent, GlyphComponentArgs,
    GlyphWithMetrics, TransformData,
};

verus! {

/// Appends `value` big-endian.
pub fn write_u16(writer: &mut Vec<u8>, value: u16)
    ensures
        final(writer)@ == old(writer)@ + u16_bytes(value),
{
    writer.push((value / 0x100) as u8);
    writer.push((value % 0x100) as u8);
    proof {
        assert(writer@ =~= old(writer)@ + u16_bytes(value));
    }
}

/// Appends `value` big-endian.
pub fn write_u32(writer: &mut Vec<u8>, value: u32)
    ensures
        final(writer)@ == old(writer)@ + u32_bytes(value),
{
    writer.push((value / 0x100_0000) as u8);
    writer.push(((value / 0x1_0000) % 0x100) as u8);
    writer.push(((value / 0x100) % 0x100) as u8);
    writer.push((value % 0x100) as u8);
    proof {
        assert(writer@ =~= old(writer)@ + u32_bytes(value));
    }
}

/// Number of bytes the Base-128 encoding of `val` takes: one 7-bit group per
/// byte.
pub open spec fn spec_base128_len(v: u32) -> int {
    if v < 0x80 {
        1
    } else if v < 0x4000 {
        2
    } else if v < 0x20_0000 {
        3
    } else if v < 0x1000_0000 {
        4
    } else {
        5
    }
}

/// The big-endian Base-128 encoding of `v`: 7-bit groups, the high bit set on
/// every byte but the last.
pub open spec fn spec_base128_bytes(v: u32) -> Seq<u8> {
    if v < 0x80 {
        seq![v as u8]
    } else if v < 0x4000 {
        seq![(0x80 + v / 0x80) as u8, (v % 0x80) as u8]
    } else if v < 0x20_0000 {
        seq![
            (0x80 + v / 0x4000) as u8,
            (0x80 + (v / 0x80) % 0x80) as u8,
            (v % 0x80) as u8,
        ]
    } else if v < 0x1000_0000 {
        seq![
            (0x80 + v / 0x20_0000) as u8,
            (0x80 + (v / 0x4000) % 0x80) as u8,
            (0x80 + (v / 0x80) % 0x80) as u8,
            (v % 0x80) as u8,
        ]
    } else {
        seq![
            (0x80 + v / 0x1000_0000) as u8,
            (0x80 + (v / 0x20_0000) % 0x80) as u8,
            (0x80 + (v / 0x4000) % 0x80) as u8,
            (0x80 + (v / 0x80) % 0x80) as u8,
            (v % 0x80) as u8,
        ]
    }
}

/// The value a big-endian sequence of 7-bit groups denotes, ignoring
/// continuation bits.
pub open spec fn spec_base128_decode(s: Seq<u8>) -> int
    decreases s.len(),
{
    if s.len() == 0 {
        0
    } else {
        spec_base128_decode(s.drop_last()) * 0x80 + (s.last() % 0x80)
    }
}

/// Base-128 round-trip: decoding the encoding of any `u32` yields it back, and
/// the encoding is exactly `spec_base128_len` bytes long.
pub proof fn lemma_base128_roundtrip(v: u32)
    ensures
        spec_base128_decode(spec_base128_bytes(v)) == v,
        spec_base128_bytes(v).len() == spec_base128_len(v),
{
    let s = spec_base128_bytes(v);
    assert(spec_base128_decode(Seq::<u8>::empty()) == 0);
    if v < 0x80 {
        assert(s.drop_last() =~= Seq::<u8>::empty());
    } else if v < 0x4000 {
        let s1 = s.drop_last();
        assert(s1 =~= seq![(0x80 + v / 0x80) as u8]);
        assert(s1.drop_last() =~= Seq::<u8>::empty());
        assert(spec_base128_decode(s1) == (0x80 + v / 0x80) % 0x80);
        assert((0x80 + v / 0x80) % 0x80 == v / 0x80) by (nonlinear_arith)
            requires
                0x80 <= v < 0x4000,
        ;
        assert(spec_base128_decode(s) == spec_base128_decode(s1) * 0x80 + (s.last() % 0x80));
        assert(s.last() % 0x80 == v % 0x80);
        assert((v / 0x80) * 0x80 + v % 0x80 == v) by (nonlinear_arith);
    } else if v < 0x20_0000 {
        let s1 = s.drop_last();
        let s2 = s1.drop_last();
        assert(s2 =~= seq![(0x80 + v / 0x4000) as u8]);
        assert(s2.drop_last() =~= Seq::<u8>::empty());
        assert(s1 =~= seq![(0x80 + v / 0x4000) as u8, (0x80 + (v / 0x80) % 0x80) as u8]);
        assert(spec_base128_decode(s2) == (0x80 + v / 0x4000) % 0x80);
        assert((0x80 + v / 0x4000) % 0x80 == v / 0x4000) by (nonlinear_arith)
            requires
                0x4000 <= v < 0x20_0000,
        ;
        assert(spec_base128_decode(s1) == spec_base128_decode(s2) * 0x80 + (s1.last() % 0x80));
        assert(s1.last() % 0x80 == (v / 0x80) % 0x80);
        assert((v / 0x4000) * 0x80 + (v / 0x80) % 0x80 == v / 0x80) by (nonlinear_arith);
        assert(spec_base128_decode(s) == spec_base128_decode(s1) * 0x80 + (s.last() % 0x80));
        assert(s.last() % 0x80 == v % 0x80);
        assert((v / 0x80) * 0x80 + v % 0x80 == v) by (nonlinear_arith);
    } else if v < 0x1000_0000 {
        let s1 = s.drop_last();
        let s2 = s1.drop_last();
        let s3 = s2.drop_last();
        assert(s3 =~= seq![(0x80 + v / 0x20_0000) as u8]);
        assert(s3.drop_last() =~= Seq::<u8>::empty());
        assert(s2 =~= seq![(0x80 + v / 0x20_0000) as u8, (0x80 + (v / 0x4000) % 0x80) as u8]);
        assert(s1 =~= seq![
            (0x80 + v / 0x20_0000) as u8,
            (0x80 + (v / 0x4000) % 0x80) as u8,
            (0x80 + (v / 0x80) % 0x80) as u8,
        ]);
        assert(spec_base128_decode(s3) == (0x80 + v / 0x20_0000) % 0x80);
        assert((0x80 + v / 0x20_0000) % 0x80 == v / 0x20_0000) by (nonlinear_arith)
            requires
                0x20_0000 <= v < 0x1000_0000,
        ;
        assert(spec_base128_decode(s2) == spec_base128_decode(s3) * 0x80 + (s2.last() % 0x80));
        assert(s2.last() % 0x80 == (v / 0x4000) % 0x80);
        assert((v / 0x20_0000) * 0x80 + (v / 0x4000) % 0x80 == v / 0x4000) by (nonlinear_arith);
        assert(spec_base128_decode(s1) == spec_base128_decode(s2) * 0x80 + (s1.last() % 0x80));
        assert(s1.last() % 0x80 == (v / 0x80) % 0x80);
        assert((v / 0x4000) * 0x80 + (v / 0x80) % 0x80 == v / 0x80) by (nonlinear_arith);
        assert(spec_base128_decode(s) == spec_base128_decode(s1) * 0x80 + (s.last() % 0x80));
        assert(s.last() % 0x80 == v % 0x80);
        assert((v / 0x80) * 0x80 + v % 0x80 == v) by (nonlinear_arith);
    } else {
        let s1 = s.drop_last();
        let s2 = s1.drop_last();
        let s3 = s2.drop_last();
        let s4 = s3.drop_last();
        assert(s4 =~= seq![(0x80 + v / 0x1000_0000) as u8]);
        assert(s4.drop_last() =~= Seq::<u8>::empty());
        assert(s3 =~= seq![(0x80 + v / 0x1000_0000) as u8, (0x80 + (v / 0x20_0000) % 0x80) as u8]);
        assert(s2 =~= seq![
            (0x80 + v / 0x1000_0000) as u8,
            (0x80 + (v / 0x20_0000) % 0x80) as u8,
            (0x80 + (v / 0x4000) % 0x80) as u8,
        ]);
        assert(s1 =~= seq![
            (0x80 + v / 0x1000_0000) as u8,
            (0x80 + (v / 0x20_0000) % 0x80) as u8,
            (0x80 + (v / 0x4000) % 0x80) as u8,
            (0x80 + (v / 0x80) % 0x80) as u8,
        ]);
        assert(spec_base128_decode(s4) == (0x80 + v / 0x1000_0000) % 0x80);
        assert((0x80 + v / 0x1000_0000) % 0x80 == v / 0x1000_0000) by (nonlinear_arith)
            requires
                0x1000_0000 <= v,
        ;
        assert(spec_base128_decode(s3) == spec_base128_decode(s4) * 0x80 + (s3.last() % 0x80));
        assert(s3.last() % 0x80 == (v / 0x20_0000) % 0x80);
        assert((v / 0x1000_0000) * 0x80 + (v / 0x20_0000) % 0x80 == v / 0x20_0000)
            by (nonlinear_arith);
        assert(spec_base128_decode(s2) == spec_base128_decode(s3) * 0x80 + (s2.last() % 0x80));
        assert(s2.last() % 0x80 == (v / 0x4000) % 0x80);
        assert((v / 0x20_0000) * 0x80 + (v / 0x4000) % 0x80 == v / 0x4000) by (nonlinear_arith);
        assert(spec_base128_decode(s1) == spec_base128_decode(s2) * 0x80 + (s1.last() % 0x80));
        assert(s1.last() % 0x80 == (v / 0x80) % 0x80);
        assert((v / 0x4000) * 0x80 + (v / 0x80) % 0x80 == v / 0x80) by (nonlinear_arith);
        assert(spec_base128_decode(s) == spec_base128_decode(s1) * 0x80 + (s.last() % 0x80));
        assert(s.last() % 0x80 == v % 0x80);
        assert((v / 0x80) * 0x80 + v % 0x80 == v) by (nonlinear_arith);
    }
}

/// Length in bytes of the Base-128 encoding of `val`.
pub fn uint_base128_len(val: u32) -> (r: usize)
    ensures
        r == spec_base128_len(val),
{
    if val < 0x80 {
        1
    } else if val < 0x4000 {
        2
    } else if val < 0x20_0000 {
        3
    } else if val < 0x1000_0000 {
        4
    } else {
        5
    }
}

/// Appends the Base-128 encoding of `val`.
pub fn write_uint_base128(buffer: &mut Vec<u8>, val: u32)
    ensures
        final(buffer)@ == old(buffer)@ + spec_base128_bytes(val),
{
    if val >= 0x1000_0000 {
        buffer.push(0x80 + (val / 0x1000_0000) as u8);
    }
    if val >= 0x20_0000 {
        buffer.push(0x80 + ((val / 0x20_0000) % 0x80) as u8);
    }
    if val >= 0x4000 {
        buffer.push(0x80 + ((val / 0x4000) % 0x80) as u8);
    }
    if val >= 0x80 {
        buffer.push(0x80 + ((val / 0x80) % 0x80) as u8);
    }
    buffer.push((val % 0x80) as u8);
    proof {
        if val < 0x80 {
            assert(buffer@ =~= old(buffer)@ + spec_base128_bytes(val));
        } else if val < 0x4000 {
            assert((val / 0x80) % 0x80 == val / 0x80) by (nonlinear_arith)
                requires
                    0x80 <= val < 0x4000,
            ;
            assert(buffer@ =~= old(buffer)@ + spec_base128_bytes(val));
        } else if val < 0x20_0000 {
            assert((val / 0x4000) % 0x80 == val / 0x4000) by (nonlinear_arith)
                requires
                    0x4000 <= val < 0x20_0000,
            ;
            assert(buffer@ =~= old(buffer)@ + spec_base128_bytes(val));
        } else if val < 0x1000_0000 {
            assert((val / 0x20_0000) % 0x80 == val / 0x20_0000) by (nonlinear_arith)
                requires
                    0x20_0000 <= val < 0x1000_0000,
            ;
            assert(buffer@ =~= old(buffer)@ + spec_base128_bytes(val));
        } else {
            assert(val / 0x1000_0000 < 0x80) by (nonlinear_arith);
            assert(buffer@ =~= old(buffer)@ + spec_base128_bytes(val));
        }
    }
}

/// `2^e`.
pub open spec fn pow2(e: nat) -> nat
    decreases e,
{
    if e == 0 {
        1nat
    } else {
        2 * pow2((e - 1) as nat)
    }
}

/// The floor of the base-2 logarithm of `x`, together with `2^` it.
pub fn floor_log2(x: u16) -> (r: (u16, u16))
    requires
        x >= 1,
    ensures
        r.0 <= 15,
        r.0 == spec_floor_log2(x as nat),
        r.1 == pow2(r.0 as nat),
        pow2(r.0 as nat) <= x < pow2((r.0 + 1) as nat),
{
    let mut k: u16 = 0;
    let mut p: u32 = 1;
    while 2 * p <= x as u32
        invariant
            x >= 1,
            k <= 15,
            p == pow2(k as nat),
            1 <= p <= x,
        decreases x - p,
    {
        proof {
            if k == 15 {
                reveal_with_fuel(pow2, 17);
                assert(pow2(15) == 32768);
                assert(false);
            }
        }
        p = 2 * p;
        k = k + 1;
    }
    proof {
        lemma_floor_log2(x as nat, k as nat);
    }
    (k, p as u16)
}


impl GlyphComponent {
    /// Appends this component's wire bytes.
    pub fn write(&self, writer: &mut Vec<u8>)
        ensures
            final(writer)@ == old(writer)@ + component_bytes(*self),
    {
        write_u16(writer, self.flags);
        write_u16(writer, self.glyph_idx);
        match self.args {
            GlyphComponentArgs::U16(args) => write_u16(writer, args),
            GlyphComponentArgs::U32(args) => write_u32(writer, args),
        }
        match self.transform {
            TransformData::Identity => {},
            TransformData::Scale(val) => write_u16(writer, val),
            TransformData::TwoScales(x, y) => {
                write_u16(writer, x);
                write_u16(writer, y);
            },
            TransformData::Affine(xx, xy, yx, yy) => {
                write_u16(writer, xx);
                write_u16(writer, xy);
                write_u16(writer, yx);
                write_u16(writer, yy);
            },
        }
        proof {
            assert(writer@ =~= old(writer)@ + component_bytes(*self));
        }
    }
}

impl Glyph {
    /// Appends this glyph's wire bytes.
    #[verifier::loop_isolation(false)]
    pub fn write(&self, writer: &mut Vec<u8>)
        ensures
            final(writer)@ == old(writer)@ + glyph_bytes(*self),
    {
        match self {
            Glyph::Empty => {},
            Glyph::Simple(bytes) => {
                writer.extend_from_slice(bytes.as_slice());
                proof {
                    assert(writer@ =~= old(writer)@ + glyph_bytes(*self));
                }
            },
            Glyph::Composite { header, components, instructions } => {
                write_u16(writer, 0xFFFF);  // numberOfContours = -1
                writer.extend_from_slice(header.as_slice());
                let len = components.len();
                let mut j: usize = 0;
                while j < len
                    invariant
                        0 <= j <= len,
                        writer@ == old(writer)@ + u16_bytes(0xFFFF) + header@ + components_bytes(
                            components@.subrange(0, j as int),
                        ),
                    decreases len - j,
                {
                    let ghost prefix = components@.subrange(0, j as int);
                    components[j].write(writer);
                    proof {
                        let next = components@.subrange(0, j + 1);
                        assert(next.drop_last() =~= prefix);
                        assert(next.last() == components@[j as int]);
                        assert(writer@ =~= old(writer)@ + u16_bytes(0xFFFF) + header@
                            + components_bytes(next));
                    }
                    j = j + 1;
                }
                writer.extend_from_slice(instructions.as_slice());
                proof {
                    assert(components@.subrange(0, components@.len() as int) =~= components@);
                    assert(writer@ =~= old(writer)@ + glyph_bytes(*self));
                }
            },
        }
    }
}

/// Count of leading `(advance, lsb)` pairs the `hmtx` table keeps: the run of
/// equal advances at the tail collapses onto its first element.
pub open spec fn hmetrics_count(advances: Seq<u16>) -> int
    decreases advances.len(),
{
    if advances.len() <= 1 {
        advances.len() as int
    } else if advances[advances.len() - 2] == advances[advances.len() - 1] {
        hmetrics_count(advances.drop_last())
    } else {
        advances.len() as int
    }
}

/// When every glyph shares one advance width, a single metric remains.
pub proof fn lemma_hmtx_tail_compression(advances: Seq<u16>)
    requires
        advances.len() >= 1,
        forall|i: int| 0 <= i < advances.len() ==> (#[trigger] advances[i]) == advances[0],
    ensures
        hmetrics_count(advances) == 1,
    decreases advances.len(),
{
    if advances.len() > 1 {
        assert(advances.drop_last() =~= advances.subrange(0, advances.len() - 1));
        lemma_hmtx_tail_compression(advances.drop_last());
    }
}

/// The advance widths of a glyph sequence.
pub open spec fn glyph_advances(glyphs: Seq<GlyphWithMetrics>) -> Seq<u16> {
    glyphs.map_values(|g: GlyphWithMetrics| g.advance)
}

/// The bytes of the `hmtx` table for `glyphs` with `n` leading full metrics:
/// `(advance, lsb)` pairs, then bare left side bearings.
pub open spec fn hmtx_bytes(glyphs: Seq<GlyphWithMetrics>, n: int) -> Seq<u8>
    decreases glyphs.len(),
{
    if glyphs.len() == 0 {
        Seq::empty()
    } else {
        let prev = hmtx_bytes(glyphs.drop_last(), n);
        let g = glyphs.last();
        if glyphs.len() - 1 < n {
            prev + u16_bytes(g.advance) + u16_bytes(g.lsb)
        } else {
            prev + u16_bytes(g.lsb)
        }
    }
}

/// Writes the `hmtx` table for the subset's glyphs and returns the computed
/// `numberOfHMetrics`.
#[verifier::loop_isolation(false)]
pub fn write_hmtx_for_glyphs(glyphs: &Vec<GlyphWithMetrics>, writer: &mut Vec<u8>) -> (r: u16)
    requires
        1 <= glyphs@.len() <= 0xFFFF,
    ensures
        r == hmetrics_count(glyph_advances(glyphs@)),
        final(writer)@ == old(writer)@ + hmtx_bytes(glyphs@, r as int),
{
    let ghost advs = glyph_advances(glyphs@);
    proof {
        assert(advs.len() == glyphs@.len());
        assert(forall|k: int|
            0 <= k < glyphs@.len() ==> advs[k] == (#[trigger] glyphs@[k]).advance);
        assert(advs.subrange(0, advs.len() as int) =~= advs);
    }
    let mut number_of_h_metrics = glyphs.len();
    while number_of_h_metrics >= 2 && glyphs[number_of_h_metrics - 2].advance
        == glyphs[number_of_h_metrics - 1].advance
        invariant
            1 <= number_of_h_metrics <= glyphs@.len(),
            hmetrics_count(advs) == hmetrics_count(
                advs.subrange(0, number_of_h_metrics as int),
            ),
        decreases number_of_h_metrics,
    {
        proof {
            let pre = advs.subrange(0, number_of_h_metrics as int);
            assert(pre[pre.len() - 2] == pre[pre.len() - 1]);
            assert(pre.drop_last() =~= advs.subrange(0, number_of_h_metrics - 1));
        }
        number_of_h_metrics = number_of_h_metrics - 1;
    }
    proof {
        let pre = advs.subrange(0, number_of_h_metrics as int);
        if number_of_h_metrics >= 2 {
            assert(pre[pre.len() - 2] != pre[pre.len() - 1]);
        }
        assert(hmetrics_count(pre) == number_of_h_metrics);
    }

    let ghost n = number_of_h_metrics as int;
    let mut i: usize = 0;
    while i < glyphs.len()
        invariant
            0 <= i <= glyphs@.len(),
            writer@ == old(writer)@ + hmtx_bytes(glyphs@.subrange(0, i as int), n),
        decreases glyphs@.len() - i,
    {
        let ghost prefix = glyphs@.subrange(0, i as int);
        if i < number_of_h_metrics {
            write_u16(writer, glyphs[i].advance);
            write_u16(writer, glyphs[i].lsb);
        } else {
            write_u16(writer, glyphs[i].lsb);
        }
        proof {
            let next = glyphs@.subrange(0, i + 1);
            assert(next.drop_last() =~= prefix);
            assert(next.last() == glyphs@[i as int]);
        }
        i = i + 1;
    }
    proof {
        assert(glyphs@.subrange(0, glyphs@.len() as int) =~= glyphs@);
    }
    number_of_h_metrics as u16
}

/// The bytes of the rebuilt `hhea` table: the original with the new metric
/// count in its last word.
pub open spec fn hhea_bytes(raw: Seq<u8>, n: u16) -> Seq<u8> {
    raw.subrange(0, 34) + u16_bytes(n)
}

impl HheaTable {
    /// Writes the table: the original 34 header bytes, then the new
    /// `numberOfHMetrics`.
    pub fn write(&self, writer: &mut Vec<u8>)
        requires
            self.raw@.len() >= 34,
        ensures
            final(writer)@ == old(writer)@ + hhea_bytes(self.raw@, self.number_of_h_metrics),
    {
        writer.extend_from_slice(&self.raw.as_slice()[0..34]);
        write_u16(writer, self.number_of_h_metrics);
        proof {
            assert(writer@ =~= old(writer)@ + hhea_bytes(self.raw@, self.number_of_h_metrics));
        }
    }
}

/// Every glyph location is even, so halved offsets lose nothing.
pub open spec fn locations_all_even(locations: Seq<usize>) -> bool {
    forall|i: int| 0 <= i < locations.len() ==> (#[trigger] locations[i]) % 2 == 0
}

/// The last location fits the halved 16-bit encoding.
pub open spec fn locations_in_bounds(locations: Seq<usize>) -> bool {
    locations.len() == 0 || locations.last() <= 0xFFFF * 2
}

/// The bytes of the short `loca` encoding: each location halved, as `u16`.
pub open spec fn loca_short_bytes(locations: Seq<usize>) -> Seq<u8>
    decreases locations.len(),
{
    if locations.len() == 0 {
        Seq::empty()
    } else {
        loca_short_bytes(locations.drop_last()) + u16_bytes(
            ((locations.last() / 2) % 0x1_0000) as u16,
        )
    }
}

/// The bytes of the long `loca` encoding: each location as `u32`.
pub open spec fn loca_long_bytes(locations: Seq<usize>) -> Seq<u8>
    decreases locations.len(),
{
    if locations.len() == 0 {
        Seq::empty()
    } else {
        loca_long_bytes(locations.drop_last()) + u32_bytes(locations.last() as u32)
    }
}

/// Writes the `loca` table, choosing the short format exactly when every
/// location is even and the largest one is at most `2 * 0xFFFF`.
#[verifier::loop_isolation(false)]
pub fn write_loca(locations: &Vec<usize>, writer: &mut Vec<u8>) -> (r: LocaFormat)
    requires
        forall|i: int| 0 <= i < locations@.len() ==> (#[trigger] locations@[i]) <= 0xFFFF_FFFF,
    ensures
        (r == LocaFormat::Short <==> locations_all_even(locations@) && locations_in_bounds(
            locations@,
        )),
        final(writer)@ == old(writer)@ + (if r == LocaFormat::Short {
            loca_short_bytes(locations@)
        } else {
            loca_long_bytes(locations@)
        }),
{
    let len = locations.len();
    let mut all_even = true;
    let mut i: usize = 0;
    while i < len
        invariant
            0 <= i <= len,
            len == locations@.len(),
            all_even <==> (forall|j: int|
                0 <= j < i ==> (#[trigger] locations@[j]) % 2 == 0),
        decreases len - i,
    {
        if locations[i] % 2 != 0 {
            all_even = false;
        }
        i = i + 1;
    }
    let in_bounds = if len == 0 {
        true
    } else {
        locations[len - 1] <= 0xFFFF * 2
    };
    if all_even && in_bounds {
        let mut i: usize = 0;
        while i < len
            invariant
                0 <= i <= len,
                writer@ == old(writer)@ + loca_short_bytes(locations@.subrange(0, i as int)),
            decreases len - i,
        {
            let ghost prefix = locations@.subrange(0, i as int);
            write_u16(writer, ((locations[i] / 2) % 0x1_0000) as u16);
            proof {
                let next = locations@.subrange(0, i + 1);
                assert(next.drop_last() =~= prefix);
                assert(next.last() == locations@[i as int]);
            }
            i = i + 1;
        }
        proof {
            assert(locations@.subrange(0, locations@.len() as int) =~= locations@);
        }
        LocaFormat::Short
    } else {
        let mut i: usize = 0;
        while i < len
            invariant
                0 <= i <= len,
                writer@ == old(writer)@ + loca_long_bytes(locations@.subrange(0, i as int)),
            decreases len - i,
        {
            let ghost prefix = locations@.subrange(0, i as int);
            write_u32(writer, locations[i] as u32);
            proof {
                let next = locations@.subrange(0, i + 1);
                assert(next.drop_last() =~= prefix);
                assert(next.last() == locations@[i as int]);
            }
            i = i + 1;
        }
        proof {
            assert(locations@.subrange(0, locations@.len() as int) =~= locations@);
        }
        LocaFormat::Long
    }
}

/// The bytes of the rebuilt `head` table: checksum adjustment zeroed and the
/// chosen `loca` format patched in.
pub open spec fn head_bytes(original: Seq<u8>, loca_format: LocaFormat) -> Seq<u8> {
    original.subrange(0, 8) + u32_bytes(0) + original.subrange(12, 50) + u16_bytes(
        if loca_format == LocaFormat::Short {
            0
        } else {
            1
        },
    ) + original.subrange(52, original.len() as int)
}

/// Writes the rebuilt `head` table.
pub fn write_head_table(original: &[u8], loca_format: LocaFormat, writer: &mut Vec<u8>)
    requires
        original@.len() >= 52,
    ensures
        final(writer)@ == old(writer)@ + head_bytes(original@, loca_format),
{
    writer.extend_from_slice(&original[0..8]);
    write_u32(writer, 0);  // zeroed; adjusted when the container is assembled
    writer.extend_from_slice(&original[12..50]);
    write_u16(
        writer,
        match loca_format {
            LocaFormat::Short => 0,
            LocaFormat::Long => 1,
        },
    );
    writer.extend_from_slice(&original[52..original.len()]);
    proof {
        assert(writer@ =~= old(writer)@ + head_bytes(original@, loca_format));
    }
}


/// The floor of the base-2 logarithm, as a recursive definition.
pub open spec fn spec_floor_log2(x: nat) -> nat
    decreases x,
{
    if x < 2 {
        0
    } else {
        (1 + spec_floor_log2(x / 2)) as nat
    }
}

pub proof fn lemma_pow2_pos(e: nat)
    ensures
        pow2(e) >= 1,
    decreases e,
{
    if e > 0 {
        lemma_pow2_pos((e - 1) as nat);
    }
}

/// `spec_floor_log2` inverts `pow2` on its value range.
pub proof fn lemma_floor_log2(x: nat, k: nat)
    requires
        pow2(k) <= x < pow2(k + 1),
    ensures
        spec_floor_log2(x) == k,
    decreases k,
{
    if k == 0 {
        assert(pow2(1) == 2);
    } else {
        lemma_pow2_pos((k - 1) as nat);
        assert(pow2(k) == 2 * pow2((k - 1) as nat));
        assert(pow2(k + 1) == 2 * pow2(k));
        assert(pow2((k - 1) as nat) <= x / 2 < pow2(k));
        lemma_floor_log2(x / 2, (k - 1) as nat);
    }
}

/// One pass of coalescing over the ascending `(char, glyph)` pairs: each pair
/// either extends the last group (consecutive char, sequential glyph) or opens
/// a new one.
pub open spec fn spec_coalesce(m: Seq<(char, u16)>) -> Seq<SequentialMapGroup>
    decreases m.len(),
{
    if m.len() == 0 {
        Seq::empty()
    } else if m.len() == 1 {
        seq![group_of_pair(m[0])]
    } else {
        let prev = spec_coalesce(m.drop_last());
        let (ch, gid) = m.last();
        let lg = prev.last();
        if ch as u32 == lg.end_char_code + 1 && gid as u32 == lg.start_glyph_id + (ch as u32
            - lg.start_char_code) {
            prev.update(
                prev.len() - 1,
                SequentialMapGroup {
                    start_char_code: lg.start_char_code,
                    end_char_code: ch as u32,
                    start_glyph_id: lg.start_glyph_id,
                },
            )
        } else {
            prev.push(group_of_pair(m.last()))
        }
    }
}

/// The one-element group of a single `(char, glyph)` pair.
pub open spec fn group_of_pair(p: (char, u16)) -> SequentialMapGroup {
    SequentialMapGroup {
        start_char_code: p.0 as u32,
        end_char_code: p.0 as u32,
        start_glyph_id: p.1 as u32,
    }
}

/// A char value lies in the Unicode scalar range, and casting it to `u32`
/// preserves its code point.
pub proof fn lemma_char_cast(c: char)
    ensures
        0 <= c as int <= 0x10FFFF,
        (c as u32) as int == c as int,
{
}

/// Char order is code-point order, also after casting.
pub proof fn lemma_char_lt(a: char, b: char)
    requires
        a < b,
    ensures
        (a as int) < (b as int),
        (a as u32) < (b as u32),
{
    lemma_char_cast(a);
    lemma_char_cast(b);
}

/// Casting a `u16` to `u32` preserves its value.
pub proof fn lemma_u16_cast(x: u16)
    ensures
        0 <= x as int <= 0xFFFF,
        (x as u32) as int == x as int,
{
}

/// In a strictly ascending char sequence the last char grows at least as fast
/// as the index.
proof fn lemma_ascending_last(s: Seq<char>)
    requires
        chars_ascending(s),
        s.len() >= 1,
    ensures
        s.last() as int >= s[0] as int + s.len() - 1,
    decreases s.len(),
{
    if s.len() >= 2 {
        let s0 = s.drop_last();
        assert(chars_ascending(s0)) by {
            assert(forall|i: int| 0 <= i < s0.len() ==> (#[trigger] s0[i]) == s[i]);
        }
        lemma_ascending_last(s0);
        assert(s[s.len() - 2] < s[s.len() - 1]);
        lemma_char_lt(s[s.len() - 2], s[s.len() - 1]);
    }
}

/// A strictly ascending char sequence cannot outgrow the code space.
pub proof fn lemma_ascending_chars_len(s: Seq<char>)
    requires
        chars_ascending(s),
    ensures
        s.len() <= 0x11_0000,
{
    if s.len() >= 1 {
        lemma_ascending_last(s);
        lemma_char_cast(s[0]);
        lemma_char_cast(s.last());
    }
}

/// Bounds that coalescing ascending pairs guarantees: at least one group per
/// nonempty input, ordered group bounds, chars bounded by the last input char,
/// and 16-bit glyph ids.
pub proof fn lemma_coalesce_props(m: Seq<(char, u16)>)
    requires
        chars_ascending(m.map_values(|e: (char, u16)| e.0)),
    ensures
        spec_coalesce(m).len() <= m.len(),
        m.len() >= 1 ==> spec_coalesce(m).len() >= 1,
        forall|k: int|
            0 <= k < spec_coalesce(m).len() ==> (#[trigger] spec_coalesce(m)[k]).start_char_code
                <= spec_coalesce(m)[k].end_char_code,
        forall|k: int|
            0 <= k < spec_coalesce(m).len() ==> m.len() >= 1 && (#[trigger] spec_coalesce(
                m,
            )[k]).end_char_code <= m.last().0 as u32,
        forall|k: int|
            0 <= k < spec_coalesce(m).len() ==> (#[trigger] spec_coalesce(m)[k]).start_glyph_id
                <= 0xFFFF,
        forall|k: int, l: int|
            0 <= k < l < spec_coalesce(m).len() ==> (#[trigger] spec_coalesce(m)[k]).end_char_code
                < (#[trigger] spec_coalesce(m)[l]).start_char_code,
        forall|i: int|
            0 <= i < m.len() ==> (exists|k: int|
                0 <= k < spec_coalesce(m).len() && (#[trigger] spec_coalesce(m)[k]).start_char_code
                    <= (#[trigger] m[i]).0 as u32 <= spec_coalesce(m)[k].end_char_code && m[i].1
                    as u32 == spec_coalesce(m)[k].start_glyph_id + (m[i].0 as u32
                    - spec_coalesce(m)[k].start_char_code)),
    decreases m.len(),
{
    let gs = spec_coalesce(m);
    if m.len() == 0 {
    } else if m.len() == 1 {
        lemma_u16_cast(m[0].1);
        lemma_char_cast(m[0].0);
        assert(gs[0].start_char_code <= m[0].0 as u32 <= gs[0].end_char_code && m[0].1 as u32
            == gs[0].start_glyph_id + (m[0].0 as u32 - gs[0].start_char_code));
    } else {
        let m0 = m.drop_last();
        assert(chars_ascending(m0.map_values(|e: (char, u16)| e.0))) by {
            let c = m.map_values(|e: (char, u16)| e.0);
            let c0 = m0.map_values(|e: (char, u16)| e.0);
            assert(forall|i: int| 0 <= i < c0.len() ==> (#[trigger] c0[i]) == c[i]);
        }
        lemma_coalesce_props(m0);
        let prev = spec_coalesce(m0);
        assert(m0.last() == m[m.len() - 2]);
        assert(m.map_values(|e: (char, u16)| e.0)[m.len() - 2] == m[m.len() - 2].0);
        assert(m.map_values(|e: (char, u16)| e.0)[m.len() - 1] == m.last().0);
        assert(m[m.len() - 2].0 < m.last().0);
        let ch: char = m.last().0;
        let gid: u16 = m.last().1;
        let lg = prev.last();
        lemma_char_lt(m0.last().0, m.last().0);
        lemma_u16_cast(m.last().1);
        assert((m0.last().0 as u32) < (m.last().0 as u32));
        if ch as u32 == lg.end_char_code + 1 && gid as u32 == lg.start_glyph_id + (ch as u32
            - lg.start_char_code) {
            let ext = SequentialMapGroup {
                start_char_code: lg.start_char_code,
                end_char_code: ch as u32,
                start_glyph_id: lg.start_glyph_id,
            };
            assert(gs == prev.update(prev.len() - 1, ext));
            assert forall|k: int| 0 <= k < gs.len() implies (#[trigger] gs[k]).start_char_code
                <= gs[k].end_char_code && gs[k].end_char_code <= m.last().0 as u32
                && gs[k].start_glyph_id <= 0xFFFF by {
                assert(prev[k].end_char_code <= m0.last().0 as u32);
                assert(prev[k].start_char_code <= prev[k].end_char_code);
                assert(prev[k].start_glyph_id <= 0xFFFF);
                if k < gs.len() - 1 {
                    assert(gs[k] == prev[k]);
                } else {
                    assert(gs[k] == ext);
                    assert(lg == prev[k]);
                }
            }
            assert forall|k: int, l: int| 0 <= k < l < gs.len() implies (
            #[trigger] gs[k]).end_char_code < (#[trigger] gs[l]).start_char_code by {
                assert(prev[k].end_char_code < prev[l].start_char_code);
                if l == gs.len() - 1 {
                    assert(gs[l].start_char_code == prev[l].start_char_code);
                }
            }
            assert forall|i: int| 0 <= i < m.len() implies (exists|k: int|
                0 <= k < gs.len() && (#[trigger] gs[k]).start_char_code <= (#[trigger] m[i]).0
                    as u32 <= gs[k].end_char_code && m[i].1 as u32 == gs[k].start_glyph_id + (
                m[i].0 as u32 - gs[k].start_char_code)) by {
                if i < m.len() - 1 {
                    assert(m0[i] == m[i]);
                    let k = choose|k: int|
                        0 <= k < prev.len() && (#[trigger] prev[k]).start_char_code <= m0[i].0
                            as u32 <= prev[k].end_char_code && m0[i].1 as u32
                            == prev[k].start_glyph_id + (m0[i].0 as u32
                            - prev[k].start_char_code);
                    if k < gs.len() - 1 {
                        assert(gs[k] == prev[k]);
                    } else {
                        assert(gs[k] == ext && lg == prev[k]);
                        assert(gs[k].start_char_code <= m[i].0 as u32 <= gs[k].end_char_code);
                    }
                } else {
                    assert(gs[gs.len() - 1] == ext);
                    assert(ext.start_char_code <= lg.end_char_code < ch as u32);
                    assert(gs[gs.len() - 1].start_char_code <= m[i].0 as u32 <= gs[gs.len()
                        - 1].end_char_code && m[i].1 as u32 == gs[gs.len() - 1].start_glyph_id + (
                    m[i].0 as u32 - gs[gs.len() - 1].start_char_code));
                }
            }
        } else {
            assert(gs == prev.push(group_of_pair(m.last())));
            assert forall|k: int| 0 <= k < gs.len() implies (#[trigger] gs[k]).start_char_code
                <= gs[k].end_char_code && gs[k].end_char_code <= m.last().0 as u32
                && gs[k].start_glyph_id <= 0xFFFF by {
                if k < gs.len() - 1 {
                    assert(gs[k] == prev[k]);
                    assert(prev[k].end_char_code <= m0.last().0 as u32);
                    assert(prev[k].start_char_code <= prev[k].end_char_code);
                    assert(prev[k].start_glyph_id <= 0xFFFF);
                } else {
                    assert(gs[k] == group_of_pair(m.last()));
                    lemma_u16_cast(m.last().1);
                }
            }
            assert forall|k: int, l: int| 0 <= k < l < gs.len() implies (
            #[trigger] gs[k]).end_char_code < (#[trigger] gs[l]).start_char_code by {
                assert(gs[k] == prev[k]);
                assert(prev[k].end_char_code <= m0.last().0 as u32);
                if l < gs.len() - 1 {
                    assert(gs[l] == prev[l]);
                    assert(prev[k].end_char_code < prev[l].start_char_code);
                } else {
                    assert(gs[l] == group_of_pair(m.last()));
                    assert((m0.last().0 as u32) < (m.last().0 as u32));
                }
            }
            assert forall|i: int| 0 <= i < m.len() implies (exists|k: int|
                0 <= k < gs.len() && (#[trigger] gs[k]).start_char_code <= (#[trigger] m[i]).0
                    as u32 <= gs[k].end_char_code && m[i].1 as u32 == gs[k].start_glyph_id + (
                m[i].0 as u32 - gs[k].start_char_code)) by {
                if i < m.len() - 1 {
                    assert(m0[i] == m[i]);
                    let k = choose|k: int|
                        0 <= k < prev.len() && (#[trigger] prev[k]).start_char_code <= m0[i].0
                            as u32 <= prev[k].end_char_code && m0[i].1 as u32
                            == prev[k].start_glyph_id + (m0[i].0 as u32
                            - prev[k].start_char_code);
                    assert(gs[k] == prev[k]);
                } else {
                    let k = gs.len() - 1;
                    assert(gs[k] == group_of_pair(m.last()));
                    assert(gs[k].start_char_code <= m[i].0 as u32 <= gs[k].end_char_code && m[i].1
                        as u32 == gs[k].start_glyph_id + (m[i].0 as u32 - gs[k].start_char_code));
                }
            }
        }
    }
}

/// The wire bytes of one field of every segment, in array order.
pub open spec fn end_codes_bytes(s: Seq<SegmentWithDelta>) -> Seq<u8>
    decreases s.len(),
{
    if s.len() == 0 {
        Seq::empty()
    } else {
        end_codes_bytes(s.drop_last()) + u16_bytes(s.last().end_code)
    }
}

pub open spec fn start_codes_bytes(s: Seq<SegmentWithDelta>) -> Seq<u8>
    decreases s.len(),
{
    if s.len() == 0 {
        Seq::empty()
    } else {
        start_codes_bytes(s.drop_last()) + u16_bytes(s.last().start_code)
    }
}

pub open spec fn id_deltas_bytes(s: Seq<SegmentWithDelta>) -> Seq<u8>
    decreases s.len(),
{
    if s.len() == 0 {
        Seq::empty()
    } else {
        id_deltas_bytes(s.drop_last()) + u16_bytes(s.last().id_delta)
    }
}

pub open spec fn id_range_offsets_bytes(s: Seq<SegmentWithDelta>) -> Seq<u8>
    decreases s.len(),
{
    if s.len() == 0 {
        Seq::empty()
    } else {
        id_range_offsets_bytes(s.drop_last()) + u16_bytes(s.last().id_range_offset)
    }
}

/// The wire bytes of a format 4 subtable over its segment and glyph-id views.
pub open spec fn deltas_subtable_bytes_of(segs: Seq<SegmentWithDelta>, gia: Seq<u8>) -> Seq<u8> {
    let n = segs.len() as int;
    let es = spec_floor_log2(n as nat);
    let sr = 2 * pow2(es);
    u16_bytes(4) + u16_bytes((16 + 8 * n) as u16) + u16_bytes(0) + u16_bytes((2 * n) as u16)
        + u16_bytes(sr as u16) + u16_bytes(es as u16) + u16_bytes((2 * n - sr) as u16)
        + end_codes_bytes(segs) + u16_bytes(0) + start_codes_bytes(segs) + id_deltas_bytes(segs)
        + id_range_offsets_bytes(segs) + gia
}

/// The wire bytes of a format 4 subtable.
pub open spec fn deltas_subtable_bytes(sd: SegmentDeltas) -> Seq<u8> {
    deltas_subtable_bytes_of(sd.segments@, sd.glyph_id_array@)
}

/// The wire bytes of every group, in order.
pub open spec fn groups_bytes(s: Seq<SequentialMapGroup>) -> Seq<u8>
    decreases s.len(),
{
    if s.len() == 0 {
        Seq::empty()
    } else {
        groups_bytes(s.drop_last()) + u32_bytes(s.last().start_char_code) + u32_bytes(
            s.last().end_char_code,
        ) + u32_bytes(s.last().start_glyph_id)
    }
}

/// The wire bytes of a format 12 subtable over its group view.
pub open spec fn coverage_subtable_bytes_of(groups: Seq<SequentialMapGroup>) -> Seq<u8> {
    let g = groups.len() as int;
    u16_bytes(12) + u16_bytes(0) + u32_bytes((16 + 12 * g) as u32) + u32_bytes(0) + u32_bytes(
        g as u32,
    ) + groups_bytes(groups)
}

/// The wire bytes of a format 12 subtable.
pub open spec fn coverage_subtable_bytes(cv: SegmentedCoverage) -> Seq<u8> {
    coverage_subtable_bytes_of(cv.groups@)
}

/// The table can be serialized within its format's field widths.
pub open spec fn cmap_writable(t: CmapTable) -> bool {
    match t {
        CmapTable::Deltas(sd) => 1 <= sd.segments@.len() <= 8189,
        CmapTable::Coverage(cv) => cv.groups@.len() <= 0x11_0000,
    }
}

/// The wire bytes of the whole rebuilt `cmap` table: version 0, one subtable
/// record for the Unicode platform, and the subtable at offset 12.
pub open spec fn cmap_table_bytes(t: CmapTable) -> Seq<u8> {
    u16_bytes(0) + u16_bytes(1) + u16_bytes(0) + u16_bytes(
        match t {
            CmapTable::Deltas(_) => 3,
            CmapTable::Coverage(_) => 4,
        },
    ) + u32_bytes(12) + (match t {
        CmapTable::Deltas(sd) => deltas_subtable_bytes(sd),
        CmapTable::Coverage(cv) => coverage_subtable_bytes(cv),
    })
}

impl SegmentDeltas {
    /// Length of the format 4 subtable: a 16-byte header and four `u16` arrays.
    pub fn subtable_len(&self) -> (r: usize)
        requires
            self.segments@.len() <= 8189,
        ensures
            r == 16 + 8 * self.segments@.len(),
    {
        16 + 8 * self.segments.len()
    }

    /// Writes the format 4 subtable.
    #[verifier::loop_isolation(false)]
    #[verifier::rlimit(100)]
    pub fn write(&self, writer: &mut Vec<u8>)
        requires
            1 <= self.segments@.len() <= 8189,
        ensures
            final(writer)@ == old(writer)@ + deltas_subtable_bytes(*self),
    {
        let ghost segs = self.segments@;
        write_u16(writer, 4);  // subtable format
        let subtable_len = self.subtable_len();
        write_u16(writer, subtable_len as u16);
        write_u16(writer, 0);  // language

        let segment_count = self.segments.len() as u16;
        write_u16(writer, 2 * segment_count);
        let (entry_selector, p) = floor_log2(segment_count);
        proof {
            lemma_floor_log2(segment_count as nat, entry_selector as nat);
        }
        let search_range = 2 * p;
        write_u16(writer, search_range);
        write_u16(writer, entry_selector);
        let range_shift = 2 * segment_count - search_range;
        write_u16(writer, range_shift);

        let ghost header = old(writer)@ + u16_bytes(4) + u16_bytes((16 + 8 * segs.len()) as u16)
            + u16_bytes(0) + u16_bytes((2 * segs.len()) as u16) + u16_bytes(search_range)
            + u16_bytes(entry_selector) + u16_bytes(range_shift);
        let len = self.segments.len();
        let mut i: usize = 0;
        while i < len
            invariant
                0 <= i <= len,
                writer@ == header + end_codes_bytes(segs.subrange(0, i as int)),
            decreases len - i,
        {
            let ghost prefix = segs.subrange(0, i as int);
            write_u16(writer, self.segments[i].end_code);
            proof {
                let next = segs.subrange(0, i + 1);
                assert(next.drop_last() =~= prefix);
                assert(next.last() == segs[i as int]);
            }
            i = i + 1;
        }
        write_u16(writer, 0);  // reserved padding
        let ghost header2 = header + end_codes_bytes(segs) + u16_bytes(0);
        proof {
            assert(segs.subrange(0, segs.len() as int) =~= segs);
        }
        let mut i: usize = 0;
        while i < len
            invariant
                0 <= i <= len,
                writer@ == header2 + start_codes_bytes(segs.subrange(0, i as int)),
            decreases len - i,
        {
            let ghost prefix = segs.subrange(0, i as int);
            write_u16(writer, self.segments[i].start_code);
            proof {
                let next = segs.subrange(0, i + 1);
                assert(next.drop_last() =~= prefix);
                assert(next.last() == segs[i as int]);
            }
            i = i + 1;
        }
        let ghost header3 = header2 + start_codes_bytes(segs);
        let mut i: usize = 0;
        while i < len
            invariant
                0 <= i <= len,
                writer@ == header3 + id_deltas_bytes(segs.subrange(0, i as int)),
            decreases len - i,
        {
            let ghost prefix = segs.subrange(0, i as int);
            write_u16(writer, self.segments[i].id_delta);
            proof {
                let next = segs.subrange(0, i + 1);
                assert(next.drop_last() =~= prefix);
                assert(next.last() == segs[i as int]);
            }
            i = i + 1;
        }
        let ghost header4 = header3 + id_deltas_bytes(segs);
        let mut i: usize = 0;
        while i < len
            invariant
                0 <= i <= len,
                writer@ == header4 + id_range_offsets_bytes(segs.subrange(0, i as int)),
            decreases len - i,
        {
            let ghost prefix = segs.subrange(0, i as int);
            write_u16(writer, self.segments[i].id_range_offset);
            proof {
                let next = segs.subrange(0, i + 1);
                assert(next.drop_last() =~= prefix);
                assert(next.last() == segs[i as int]);
            }
            i = i + 1;
        }
        writer.extend_from_slice(self.glyph_id_array.as_slice());
        proof {
            assert(segs.subrange(0, segs.len() as int) =~= segs);
            assert(writer@ =~= old(writer)@ + deltas_subtable_bytes(*self));
        }
    }
}

impl SegmentedCoverage {
    /// Length of the format 12 subtable: a 16-byte header and 12 bytes per
    /// group.
    pub fn subtable_len(&self) -> (r: usize)
        requires
            self.groups@.len() <= 0x11_0000,
        ensures
            r == 16 + 12 * self.groups@.len(),
    {
        16 + 12 * self.groups.len()
    }

    /// Writes the format 12 subtable.
    #[verifier::loop_isolation(false)]
    pub fn write(&self, writer: &mut Vec<u8>)
        requires
            self.groups@.len() <= 0x11_0000,
        ensures
            final(writer)@ == old(writer)@ + coverage_subtable_bytes(*self),
    {
        let ghost groups = self.groups@;
        write_u16(writer, 12);  // subtable format
        write_u16(writer, 0);  // reserved
        let subtable_len = self.subtable_len();
        write_u32(writer, subtable_len as u32);
        write_u32(writer, 0);  // language
        write_u32(writer, self.groups.len() as u32);

        let ghost header = old(writer)@ + u16_bytes(12) + u16_bytes(0) + u32_bytes(
            (16 + 12 * groups.len()) as u32,
        ) + u32_bytes(0) + u32_bytes(groups.len() as u32);
        let len = self.groups.len();
        let mut i: usize = 0;
        while i < len
            invariant
                0 <= i <= len,
                writer@ == header + groups_bytes(groups.subrange(0, i as int)),
            decreases len - i,
        {
            let ghost prefix = groups.subrange(0, i as int);
            let group = self.groups[i];
            write_u32(writer, group.start_char_code);
            write_u32(writer, group.end_char_code);
            write_u32(writer, group.start_glyph_id);
            proof {
                let next = groups.subrange(0, i + 1);
                assert(next.drop_last() =~= prefix);
                assert(next.last() == groups[i as int]);
            }
            i = i + 1;
        }
        proof {
            assert(groups.subrange(0, groups.len() as int) =~= groups);
            assert(writer@ =~= old(writer)@ + coverage_subtable_bytes(*self));
        }
    }
}

/// A char below the 16-bit boundary casts to `u16` unchanged.
proof fn lemma_char_cast16(c: char)
    requires
        (c as int) < 0x1_0000,
    ensures
        (c as u16) as int == c as int,
{
}

/// Re-encoding the retained mapping and looking a retained character back up
/// yields its glyph id, in whichever format the re-encoder selected.
pub proof fn lemma_from_map_round_trip(m: Seq<(char, u16)>, i: int)
    requires
        chars_ascending(m.map_values(|e: (char, u16)| e.0)),
        0 <= i < m.len(),
    ensures
        cmap_deltas_ok(m) ==> deltas_map_spec(
            subset_cmap_segments(m),
            Seq::empty(),
            m[i].0 as u16,
        ) == Ok::<u16, MapError>(m[i].1),
        !cmap_deltas_ok(m) ==> coverage_map_spec(spec_coalesce(m), m[i].0 as u32) == m[i].1,
{
    lemma_coalesce_props(m);
    lemma_char_cast(m[i].0);
    lemma_u16_cast(m[i].1);
    assert(m.map_values(|e: (char, u16)| e.0).last() == m.last().0);
    lemma_char_cast(m.last().0);
    if i < m.len() - 1 {
        assert(m.map_values(|e: (char, u16)| e.0)[i] == m[i].0);
        lemma_char_lt(m[i].0, m.last().0);
    }
    let gs = spec_coalesce(m);
    let ch32 = m[i].0 as u32;
    let gid = m[i].1;
    let k = choose|k: int|
        0 <= k < gs.len() && (#[trigger] gs[k]).start_char_code <= ch32
            <= gs[k].end_char_code && gid as u32 == gs[k].start_glyph_id + (ch32
            - gs[k].start_char_code);
    if cmap_deltas_ok(m) {
        let segs = subset_cmap_segments(m);
        let c16 = m[i].0 as u16;
        lemma_char_cast16(m[i].0);
        assert((m.last().0 as u32) < 0xFFFF);
        assert(ch32 < 0xFFFF);
        assert(c16 as int == ch32 as int);
        assert(segs.len() == gs.len() + 1);
        assert(forall|j: int|
            0 <= j < gs.len() ==> #[trigger] segs[j] == seg_of_group(gs[j]));
        assert(segs[gs.len() as int] == sentinel_seg());
        // Every earlier segment ends before the char; segment k reaches it.
        assert forall|j: int| 0 <= j < k implies (#[trigger] segs[j]).end_code < c16 by {
            assert(gs[j].end_char_code < gs[k].start_char_code);
            assert(gs[j].end_char_code <= (m.last().0 as u32));
        }
        assert(segs[k].end_code as int == gs[k].end_char_code as int) by {
            assert(gs[k].end_char_code <= (m.last().0 as u32) < 0xFFFF);
        }
        assert(segs[k].start_code as int == gs[k].start_char_code as int) by {
            assert(gs[k].start_char_code <= gs[k].end_char_code < 0xFFFF);
        }
        assert(segs[k].end_code >= c16);
        lemma_seg_lower_bound(segs, c16, 0, k);
        assert(segs[k].id_range_offset == 0);
        // The delta recovers the glyph id modulo 2^16.
        let s = segs[k].start_code;
        let g16 = (gs[k].start_glyph_id as u16) as int;
        assert(gs[k].start_glyph_id <= 0xFFFF);
        assert(g16 == gs[k].start_glyph_id as int);
        assert(wadd16(segs[k].id_delta, c16) == gid) by {
            assert(segs[k].id_delta as int == (g16 - s) % 0x1_0000);
            assert((((g16 - s) % 0x1_0000) + c16) % 0x1_0000 == gid as int) by (nonlinear_arith)
                requires
                    0 <= gid < 0x1_0000,
                    0 <= s < 0x1_0000,
                    0 <= g16 < 0x1_0000,
                    0 <= c16 < 0x1_0000,
                    g16 + (c16 - s) == gid as int,
            ;
        }
    } else {
        assert forall|j: int| 0 <= j < k implies (#[trigger] gs[j]).end_char_code < ch32 by {
            assert(gs[j].end_char_code < gs[k].start_char_code);
        }
        lemma_group_lower_bound(gs, ch32, 0, k);
        assert(gs[k].spec_map_unchecked(ch32) == gid) by {
            assert(gs[k].start_glyph_id + (ch32 - gs[k].start_char_code) == gid as int);
        }
    }
}

/// The format 4 segment a coalesced group translates to: a pure delta mapping.
pub open spec fn seg_of_group(g: SequentialMapGroup) -> SegmentWithDelta {
    SegmentWithDelta {
        start_code: g.start_char_code as u16,
        end_code: g.end_char_code as u16,
        id_delta: wsub16(g.start_glyph_id as u16, g.start_char_code as u16),
        id_range_offset: 0,
    }
}

/// The sentinel segment that terminates every format 4 subtable.
pub open spec fn sentinel_seg() -> SegmentWithDelta {
    SegmentWithDelta { start_code: 0xFFFF, end_code: 0xFFFF, id_delta: 1, id_range_offset: 0 }
}

impl CmapTable {
    /// Re-encodes the retained `(char, new glyph)` pairs, which must ascend
    /// strictly by char. Format 4 is chosen exactly when the characters stay
    /// below `U+FFFF` and the coalesced groups fit the format's 16-bit length
    /// field; otherwise format 12 carries the mapping.
    #[verifier::loop_isolation(false)]
    pub fn from_map(map: &Vec<(char, u16)>) -> (r: CmapTable)
        requires
            chars_ascending(map@.map_values(|e: (char, u16)| e.0)),
        ensures
            r.wf(),
            r.sorted(),
            cmap_writable(r),
            ({
                let groups = spec_coalesce(map@);
                let deltas_ok = (map@.len() == 0 || (map@.last().0 as u32) < 0xFFFF)
                    && groups.len() + 1 <= 8189;
                if deltas_ok {
                    match r {
                        CmapTable::Deltas(sd) => {
                            &&& sd.glyph_id_array@ =~= Seq::<u8>::empty()
                            &&& sd.segments@.len() == groups.len() + 1
                            &&& sd.segments@.last() == sentinel_seg()
                            &&& forall|k: int|
                                0 <= k < groups.len() ==> (#[trigger] sd.segments@[k])
                                    == seg_of_group(groups[k])
                        },
                        CmapTable::Coverage(_) => false,
                    }
                } else {
                    match r {
                        CmapTable::Deltas(_) => false,
                        CmapTable::Coverage(cv) => cv.groups@ == groups,
                    }
                }
            }),
    {
        let coverage = Self::create_coverage(map);
        proof {
            lemma_coalesce_props(map@);
            lemma_ascending_chars_len(map@.map_values(|e: (char, u16)| e.0));
        }
        let can_be_encoded_as_deltas = map.len() == 0 || {
            let last_ch = map[map.len() - 1].0;
            proof {
                assert(map@.map_values(|e: (char, u16)| e.0).last() == map@.last().0);
            }
            (last_ch as u32) < 0xFFFF
        };
        if can_be_encoded_as_deltas && coverage.groups.len() + 1 <= 8189 {
            let ghost groups = coverage.groups@;
            let mut segments: Vec<SegmentWithDelta> = Vec::new();
            let len = coverage.groups.len();
            let mut i: usize = 0;
            while i < len
                invariant
                    0 <= i <= len,
                    segments@.len() == i,
                    forall|k: int|
                        0 <= k < i ==> (#[trigger] segments@[k]) == seg_of_group(groups[k]),
                decreases len - i,
            {
                let group = coverage.groups[i];
                proof {
                    assert(group == spec_coalesce(map@)[i as int]);
                    assert(map@.map_values(|e: (char, u16)| e.0).last() == map@.last().0);
                    assert(group.end_char_code <= map@.last().0 as u32);
                }
                let start_code = group.start_char_code as u16;
                let segment = SegmentWithDelta {
                    start_code,
                    end_code: group.end_char_code as u16,
                    id_delta: (group.start_glyph_id as u16).wrapping_sub(start_code),
                    id_range_offset: 0,
                };
                segments.push(segment);
                i = i + 1;
            }
            // The closing segment maps 0xFFFF to the missing glyph, as the
            // format requires.
            segments.push(
                SegmentWithDelta {
                    start_code: 0xFFFF,
                    end_code: 0xFFFF,
                    id_delta: 1,
                    id_range_offset: 0,
                },
            );
            proof {
                let gs = spec_coalesce(map@);
                if map@.len() >= 1 {
                    assert(map@.map_values(|e: (char, u16)| e.0).last() == map@.last().0);
                    lemma_char_cast(map@.last().0);
                }
                assert forall|a: int, b: int| 0 <= a < b < segments@.len() implies (
                #[trigger] segments@[a]).end_code < (#[trigger] segments@[b]).end_code by {
                    if b < segments@.len() - 1 {
                        assert(gs[a].end_char_code < gs[b].start_char_code
                            <= gs[b].end_char_code);
                        assert(gs[b].end_char_code <= (map@.last().0 as u32));
                        assert(gs[a].end_char_code < 0xFFFF && gs[b].end_char_code < 0xFFFF);
                    } else {
                        assert(segments@[b].end_code == 0xFFFF);
                        assert(gs[a].end_char_code <= (map@.last().0 as u32));
                        assert((map@.last().0 as u32) < 0xFFFF);
                    }
                }
            }
            CmapTable::Deltas(SegmentDeltas { segments, glyph_id_array: Vec::new() })
        } else {
            proof {
                let gs = spec_coalesce(map@);
                assert forall|a: int, b: int| 0 <= a < b < gs.len() implies (
                #[trigger] gs[a]).end_char_code < (#[trigger] gs[b]).end_char_code by {
                    assert(gs[a].end_char_code < gs[b].start_char_code <= gs[b].end_char_code);
                }
            }
            CmapTable::Coverage(coverage)
        }
    }

    /// Coalesces the ascending `(char, new glyph)` pairs into sequential map
    /// groups.
    #[verifier::loop_isolation(false)]
    pub fn create_coverage(map: &Vec<(char, u16)>) -> (r: SegmentedCoverage)
        requires
            chars_ascending(map@.map_values(|e: (char, u16)| e.0)),
        ensures
            r.groups@ == spec_coalesce(map@),
            r.groups@.len() <= map@.len(),
    {
        proof {
            lemma_coalesce_props(map@);
        }
        let mut groups: Vec<SequentialMapGroup> = Vec::new();
        if map.len() == 0 {
            proof {
                assert(groups@ =~= spec_coalesce(map@));
            }
            return SegmentedCoverage { groups };
        }
        let (first_char, first_idx) = map[0];
        let mut current_group = SequentialMapGroup {
            start_char_code: first_char as u32,
            end_char_code: first_char as u32,
            start_glyph_id: first_idx as u32,
        };
        let mut i: usize = 1;
        proof {
            lemma_char_cast(first_char);
            assert(map@.subrange(0, 1) =~= seq![map@[0]]);
            assert(groups@.push(current_group) =~= spec_coalesce(map@.subrange(0, 1)));
        }
        while i < map.len()
            invariant
                1 <= i <= map@.len(),
                current_group.start_char_code <= current_group.end_char_code <= 0x10FFFF,
                groups@.push(current_group) == spec_coalesce(map@.subrange(0, i as int)),
            decreases map@.len() - i,
        {
            let ghost prefix = map@.subrange(0, i as int);
            let (ch, glyph_idx) = map[i];
            proof {
                lemma_char_cast(ch);
            }
            if ch as u32 == current_group.end_char_code + 1 && (glyph_idx as u64)
                == current_group.map_unchecked(ch) {
                current_group = SequentialMapGroup {
                    start_char_code: current_group.start_char_code,
                    end_char_code: current_group.end_char_code + 1,
                    start_glyph_id: current_group.start_glyph_id,
                };
            } else {
                groups.push(current_group);
                current_group = SequentialMapGroup {
                    start_char_code: ch as u32,
                    end_char_code: ch as u32,
                    start_glyph_id: glyph_idx as u32,
                };
            }
            proof {
                let next = map@.subrange(0, i + 1);
                assert(next.drop_last() =~= prefix);
                assert(next.last() == map@[i as int]);
                assert(spec_coalesce(prefix).len() >= 1);
                assert(groups@.push(current_group) =~= spec_coalesce(next));
            }
            i = i + 1;
        }
        groups.push(current_group);
        proof {
            assert(map@.subrange(0, map@.len() as int) =~= map@);
        }
        SegmentedCoverage { groups }
    }

    /// Writes the whole rebuilt `cmap` table.
    pub fn write(&self, writer: &mut Vec<u8>)
        requires
            cmap_writable(*self),
        ensures
            final(writer)@ == old(writer)@ + cmap_table_bytes(*self),
    {
        write_u16(writer, 0);  // table version
        write_u16(writer, 1);  // number of subtable records
        write_u16(writer, 0);  // Unicode platform
        let encoding_id: u16 = match self {
            CmapTable::Deltas(_) => 3,
            CmapTable::Coverage(_) => 4,
        };
        write_u16(writer, encoding_id);
        write_u32(writer, 12);  // subtable offset
        match self {
            CmapTable::Deltas(deltas) => deltas.write(writer),
            CmapTable::Coverage(coverage) => coverage.write(writer),
        }
        proof {
            assert(writer@ =~= old(writer)@ + cmap_table_bytes(*self));
        }
    }
}


/// `n` rounded up to a 4-byte boundary.
pub open spec fn pad4(n: int) -> int {
    if n % 4 == 0 {
        n
    } else {
        n + (4 - n % 4)
    }
}

/// A run of `n` zero bytes.
pub open spec fn zero_seq(n: int) -> Seq<u8> {
    Seq::new(n as nat, |i: int| 0u8)
}

/// Appending zeros does not change a checksum: the final partial word is
/// zero-padded either way.
proof fn lemma_checksum_zeros_from(s: Seq<u8>, z: Seq<u8>, i: int)
    requires
        forall|j: int| 0 <= j < z.len() ==> z[j] == 0,
        0 <= i,
    ensures
        checksum_from(s + z, i) == checksum_from(s, i),
    decreases s.len() + z.len() - i,
{
    let t = s + z;
    if i >= t.len() {
    } else {
        assert(word_at(t, i) == word_at(s, i));
        let next_t = if i + 4 <= t.len() {
            i + 4
        } else {
            t.len() as int
        };
        let next_s = if i + 4 <= s.len() {
            i + 4
        } else {
            s.len() as int
        };
        if i >= s.len() {
            assert(word_at(t, i) == 0);
            lemma_checksum_zeros_from(s, z, next_t);
            lemma_wadd_zero(checksum_from(t, next_t));
        } else if next_t == next_s {
            lemma_checksum_zeros_from(s, z, next_t);
        } else {
            // The word at `i` straddles the end of `s`.
            lemma_checksum_zeros_from(s, z, next_t);
            lemma_checksum_zeros_from(s, z, next_s);
            assert(checksum_from(t, next_s) == checksum_from(s, next_s));
            assert(checksum_from(s, next_s) == 0);
            assert(checksum_from(t, next_t) == 0);
        }
    }
}

pub proof fn lemma_checksum_zeros(s: Seq<u8>, z: Seq<u8>)
    requires
        forall|j: int| 0 <= j < z.len() ==> z[j] == 0,
    ensures
        spec_checksum(s + z) == spec_checksum(s),
{
    lemma_checksum_zeros_from(s, z, 0);
}

/// Recomposing the four big-endian bytes of `v` yields `v`.
pub proof fn lemma_be32_u32_bytes(v: u32)
    ensures
        be32_at(u32_bytes(v), 0) == v,
{
    assert((v / 0x100_0000) * 0x100_0000 + ((v / 0x1_0000) % 0x100) * 0x1_0000 + ((v / 0x100)
        % 0x100) * 0x100 + v % 0x100 == v) by (nonlinear_arith);
}

/// Recomposing the two big-endian bytes of `v` yields `v`.
pub proof fn lemma_be16_u16_bytes(v: u16)
    ensures
        be16_at(u16_bytes(v), 0) == v,
{
}

/// One record of the output table directory.
#[derive(Debug, Clone, Copy, PartialEq, Eq, Structural)]
pub struct TableRecord {
    pub tag: TableTag,
    pub checksum: u32,
    /// Relative to the start of the table data until the directory is
    /// assembled, then relative to the start of the file.
    pub offset: u32,
    pub length: u32,
}

impl TableRecord {
    /// The wrapping sum of the record's own four directory words.
    pub open spec fn spec_self_checksum(self) -> u32 {
        wadd(wadd(wadd(self.tag.0, self.checksum), self.offset), self.length)
    }

    pub fn self_checksum(&self) -> (r: u32)
        ensures
            r == self.spec_self_checksum(),
    {
        wadd_exec(wadd_exec(wadd_exec(self.tag.0, self.checksum), self.offset), self.length)
    }

    /// The record's 16 directory bytes.
    pub open spec fn opentype_bytes(self) -> Seq<u8> {
        u32_bytes(self.tag.0) + u32_bytes(self.checksum) + u32_bytes(self.offset) + u32_bytes(
            self.length,
        )
    }

    pub fn write_opentype(&self, writer: &mut Vec<u8>)
        ensures
            final(writer)@ == old(writer)@ + self.opentype_bytes(),
    {
        write_u32(writer, self.tag.0);
        write_u32(writer, self.checksum);
        write_u32(writer, self.offset);
        write_u32(writer, self.length);
        proof {
            assert(writer@ =~= old(writer)@ + self.opentype_bytes());
        }
    }

    /// The checksum of a record's own directory bytes is its self checksum.
    pub proof fn lemma_opentype_bytes_checksum(self)
        ensures
            self.opentype_bytes().len() == 16,
            spec_checksum(self.opentype_bytes()) == self.spec_self_checksum(),
    {
        let b = self.opentype_bytes();
        lemma_be32_u32_bytes(self.tag.0);
        lemma_be32_u32_bytes(self.checksum);
        lemma_be32_u32_bytes(self.offset);
        lemma_be32_u32_bytes(self.length);
        assert(b.subrange(0, 4) =~= u32_bytes(self.tag.0));
        assert(b.subrange(4, 8) =~= u32_bytes(self.checksum));
        assert(b.subrange(8, 12) =~= u32_bytes(self.offset));
        assert(b.subrange(12, 16) =~= u32_bytes(self.length));
        assert(word_at(b, 0) == be32_at(b, 0));
        assert(word_at(b, 4) == be32_at(b, 4));
        assert(word_at(b, 8) == be32_at(b, 8));
        assert(word_at(b, 12) == be32_at(b, 12));
        assert(be32_at(b, 0) == self.tag.0) by {
            assert(b[0] == u32_bytes(self.tag.0)[0] && b[1] == u32_bytes(self.tag.0)[1] && b[2]
                == u32_bytes(self.tag.0)[2] && b[3] == u32_bytes(self.tag.0)[3]);
        }
        assert(be32_at(b, 4) == self.checksum) by {
            assert(b[4] == u32_bytes(self.checksum)[0] && b[5] == u32_bytes(self.checksum)[1]
                && b[6] == u32_bytes(self.checksum)[2] && b[7] == u32_bytes(self.checksum)[3]);
        }
        assert(be32_at(b, 8) == self.offset) by {
            assert(b[8] == u32_bytes(self.offset)[0] && b[9] == u32_bytes(self.offset)[1] && b[10]
                == u32_bytes(self.offset)[2] && b[11] == u32_bytes(self.offset)[3]);
        }
        assert(be32_at(b, 12) == self.length) by {
            assert(b[12] == u32_bytes(self.length)[0] && b[13] == u32_bytes(self.length)[1]
                && b[14] == u32_bytes(self.length)[2] && b[15] == u32_bytes(self.length)[3]);
        }
        assert(checksum_from(b, 16) == 0);
        lemma_wadd_zero(be32_at(b, 12));
        assert(checksum_from(b, 12) == wadd(be32_at(b, 12), 0));
        assert(checksum_from(b, 8) == wadd(be32_at(b, 8), checksum_from(b, 12)));
        assert(checksum_from(b, 4) == wadd(be32_at(b, 4), checksum_from(b, 8)));
        assert(spec_checksum(b) == wadd(be32_at(b, 0), checksum_from(b, 4)));
        lemma_wadd_assoc(self.tag.0, self.checksum, wadd(self.offset, self.length));
        lemma_wadd_assoc(self.checksum, self.offset, self.length);
        lemma_wadd_assoc(wadd(self.tag.0, self.checksum), self.offset, self.length);
    }
}

/// Wrapping sum of the stored table checksums, in record order.
pub open spec fn rec_checksum_sum(s: Seq<TableRecord>) -> u32
    decreases s.len(),
{
    if s.len() == 0 {
        0
    } else {
        wadd(rec_checksum_sum(s.drop_last()), s.last().checksum)
    }
}

/// Wrapping sum of the records' own directory words, in record order.
pub open spec fn rec_self_sum(s: Seq<TableRecord>) -> u32
    decreases s.len(),
{
    if s.len() == 0 {
        0
    } else {
        wadd(rec_self_sum(s.drop_last()), s.last().spec_self_checksum())
    }
}

/// The directory bytes of the records, in order.
pub open spec fn directory_bytes(s: Seq<TableRecord>) -> Seq<u8>
    decreases s.len(),
{
    if s.len() == 0 {
        Seq::empty()
    } else {
        directory_bytes(s.drop_last()) + s.last().opentype_bytes()
    }
}

proof fn lemma_directory_bytes_len(s: Seq<TableRecord>)
    ensures
        directory_bytes(s).len() == 16 * s.len(),
    decreases s.len(),
{
    if s.len() > 0 {
        lemma_directory_bytes_len(s.drop_last());
    }
}

/// The checksum of the directory bytes is the sum of the records' own words.
proof fn lemma_directory_checksum(s: Seq<TableRecord>)
    ensures
        spec_checksum(directory_bytes(s)) == rec_self_sum(s),
    decreases s.len(),
{
    if s.len() > 0 {
        lemma_directory_checksum(s.drop_last());
        lemma_directory_bytes_len(s.drop_last());
        lemma_checksum_concat(directory_bytes(s.drop_last()), s.last().opentype_bytes());
        s.last().lemma_opentype_bytes_checksum();
    }
}

/// Removing an element takes its weight out of a wrapping sum.
proof fn lemma_rec_sums_remove(s: Seq<TableRecord>, i: int)
    requires
        0 <= i < s.len(),
    ensures
        rec_checksum_sum(s) == wadd(rec_checksum_sum(s.remove(i)), s[i].checksum),
        rec_self_sum(s) == wadd(rec_self_sum(s.remove(i)), s[i].spec_self_checksum()),
    decreases s.len(),
{
    if i == s.len() - 1 {
        assert(s.remove(i) =~= s.drop_last());
    } else {
        assert(s.remove(i).last() == s.last());
        assert(s.remove(i).drop_last() =~= s.drop_last().remove(i));
        lemma_rec_sums_remove(s.drop_last(), i);
        let a = rec_checksum_sum(s.drop_last().remove(i));
        let x = s[i].checksum;
        let y = s.last().checksum;
        lemma_wadd_assoc(a, x, y);
        lemma_wadd_comm(x, y);
        lemma_wadd_assoc(a, y, x);
        let a2 = rec_self_sum(s.drop_last().remove(i));
        let x2 = s[i].spec_self_checksum();
        let y2 = s.last().spec_self_checksum();
        lemma_wadd_assoc(a2, x2, y2);
        lemma_wadd_comm(x2, y2);
        lemma_wadd_assoc(a2, y2, x2);
    }
}

/// Both wrapping sums are invariant under permutation.
proof fn lemma_rec_sums_permutation(s1: Seq<TableRecord>, s2: Seq<TableRecord>)
    requires
        s1.to_multiset() == s2.to_multiset(),
    ensures
        rec_checksum_sum(s1) == rec_checksum_sum(s2),
        rec_self_sum(s1) == rec_self_sum(s2),
    decreases s1.len(),
{
    broadcast use vstd::seq_lib::group_to_multiset_ensures;

    if s1.len() == 0 {
        assert(s2.to_multiset().len() == 0);
        assert(s2.len() == 0);
    } else {
        let x = s1.last();
        assert(s1.to_multiset().count(x) > 0) by {
            assert(s1.contains(x));
        }
        assert(s2.contains(x));
        let i = choose|i: int| 0 <= i < s2.len() && s2[i] == x;
        assert(s1.drop_last() =~= s1.remove(s1.len() - 1));
        assert(s1.remove(s1.len() - 1).to_multiset() =~= s2.remove(i).to_multiset());
        lemma_rec_sums_permutation(s1.drop_last(), s2.remove(i));
        lemma_rec_sums_remove(s2, i);
    }
}

/// A record's region inside the table data: aligned, in bounds, zero padding,
/// and the stored checksum is the checksum of the unpadded window.
pub open spec fn rec_region_ok(r: TableRecord, data: Seq<u8>) -> bool {
    &&& r.offset % 4 == 0
    &&& r.offset + pad4(r.length as int) <= data.len()
    &&& r.checksum == spec_checksum(data.subrange(r.offset as int, r.offset + r.length))
    &&& forall|j: int|
        r.offset + r.length <= j < r.offset + pad4(r.length as int) ==> data[j] == 0
}

/// Assembles the subset's tables: records with verified checksums over an
/// aligned data heap, then the OpenType or WOFF2 container around them.
#[derive(Debug, Clone)]
pub struct FontBuilder {
    pub tables: Vec<TableRecord>,
    /// Aligned table data: every table zero-padded to a 4-byte boundary.
    pub table_data: Vec<u8>,
}

impl FontBuilder {
    /// The builder's invariant: contiguous aligned regions whose checksums the
    /// records carry, with the running sum of checksums matching the data.
    pub open spec fn wf(self) -> bool {
        &&& self.table_data@.len() % 4 == 0
        &&& self.table_data@.len() <= 0xFFFF_0000
        &&& self.tables@.len() <= 0xFFF
        &&& rec_checksum_sum(self.tables@) == spec_checksum(self.table_data@)
        &&& (forall|i: int|
            0 <= i < self.tables@.len() ==> rec_region_ok(
                #[trigger] self.tables@[i],
                self.table_data@,
            ))
        &&& (forall|i: int, j: int|
            0 <= i < j < self.tables@.len() ==> (#[trigger] self.tables@[i]).offset + pad4(
                self.tables@[i].length as int,
            ) <= (#[trigger] self.tables@[j]).offset)
    }

    /// A fresh builder with no tables.
    pub fn new() -> (r: FontBuilder)
        ensures
            r.wf(),
            r.tables@.len() == 0,
            r.table_data@.len() == 0,
    {
        let r = FontBuilder { tables: Vec::new(), table_data: Vec::new() };
        proof {
            assert(spec_checksum(r.table_data@) == 0);
        }
        r
    }

    /// Appends one table: the content, zero padding to a 4-byte boundary, and
    /// a record carrying the content's checksum.
    #[verifier::rlimit(100)]
    #[verifier::spinoff_prover]
    pub fn add_table(&mut self, tag: TableTag, content: Vec<u8>)
        requires
            old(self).wf(),
            old(self).table_data@.len() + content@.len() + 3 <= 0xFFFF_0000,
            old(self).tables@.len() < 0xFFF,
        ensures
            final(self).wf(),
            final(self).tables@ == old(self).tables@.push(
                TableRecord {
                    tag,
                    checksum: spec_checksum(content@),
                    offset: old(self).table_data@.len() as u32,
                    length: content@.len() as u32,
                },
            ),
            final(self).table_data@ == old(self).table_data@ + content@ + zero_seq(
                pad4(content@.len() as int) - content@.len(),
            ),
    {
        let ghost data0 = self.table_data@;
        let ghost tables0 = self.tables@;
        let offset = self.table_data.len();
        let length = content.len();
        let ghost content_v = content@;
        let mut content = content;
        self.table_data.append(&mut content);
        let rem = self.table_data.len() % 4;
        if rem != 0 {
            let missing = 4 - rem;
            self.table_data.push(0);
            if missing >= 2 {
                self.table_data.push(0);
            }
            if missing == 3 {
                self.table_data.push(0);
            }
        }
        proof {
            assert((data0.len() + content_v.len()) % 4 == content_v.len() % 4);
            assert(self.table_data@ =~= data0 + content_v + zero_seq(
                pad4(content_v.len() as int) - content_v.len(),
            ));
        }
        let checksum_value = checksum(&self.table_data.as_slice()[offset..offset + length]);
        proof {
            assert(self.table_data@.subrange(offset as int, (offset + length) as int)
                =~= content_v);
        }
        let record = TableRecord {
            tag,
            checksum: checksum_value,
            offset: offset as u32,
            length: length as u32,
        };
        self.tables.push(record);
        proof {
            lemma_add_table_wf(tables0, data0, content_v, record, self.tables@, self.table_data@);
        }
    }
}

/// Appending a padded table region preserves the builder's invariant.
#[verifier::rlimit(100)]
#[verifier::spinoff_prover]
proof fn lemma_add_table_wf(
    tables0: Seq<TableRecord>,
    data0: Seq<u8>,
    content: Seq<u8>,
    r: TableRecord,
    tables1: Seq<TableRecord>,
    data1: Seq<u8>,
)
    requires
        data0.len() % 4 == 0,
        rec_checksum_sum(tables0) == spec_checksum(data0),
        forall|i: int|
            0 <= i < tables0.len() ==> rec_region_ok(#[trigger] tables0[i], data0),
        forall|i: int, j: int|
            0 <= i < j < tables0.len() ==> (#[trigger] tables0[i]).offset + pad4(
                tables0[i].length as int,
            ) <= (#[trigger] tables0[j]).offset,
        data0.len() + content.len() + 3 <= 0xFFFF_0000,
        r.checksum == spec_checksum(content),
        r.offset == data0.len(),
        r.length == content.len(),
        tables1 == tables0.push(r),
        data1 == data0 + content + zero_seq(pad4(content.len() as int) - content.len()),
    ensures
        data1.len() % 4 == 0,
        data1.len() == data0.len() + pad4(content.len() as int),
        data1.len() <= 0xFFFF_0000,
        rec_checksum_sum(tables1) == spec_checksum(data1),
        forall|i: int|
            0 <= i < tables1.len() ==> rec_region_ok(#[trigger] tables1[i], data1),
        forall|i: int, j: int|
            0 <= i < j < tables1.len() ==> (#[trigger] tables1[i]).offset + pad4(
                tables1[i].length as int,
            ) <= (#[trigger] tables1[j]).offset,
{
    assert(tables1.drop_last() =~= tables0);
    assert(data1.len() == data0.len() + pad4(content.len() as int));
    lemma_add_table_checksums(data0, content, data1);
    assert(rec_checksum_sum(tables1) == wadd(rec_checksum_sum(tables0), r.checksum));
    lemma_add_table_regions(tables0, data0, content, r, tables1, data1);
    assert forall|i: int, j: int| 0 <= i < j < tables1.len() implies (
    #[trigger] tables1[i]).offset + pad4(tables1[i].length as int) <= (
    #[trigger] tables1[j]).offset by {
        if j < tables0.len() {
            assert(tables1[i] == tables0[i] && tables1[j] == tables0[j]);
        } else {
            assert(tables1[i] == tables0[i] && tables1[j] == r);
            assert(rec_region_ok(tables0[i], data0));
        }
    }
}

/// The data checksum grows by exactly the new table's checksum.
proof fn lemma_add_table_checksums(data0: Seq<u8>, content: Seq<u8>, data1: Seq<u8>)
    requires
        data0.len() % 4 == 0,
        data1 == data0 + content + zero_seq(pad4(content.len() as int) - content.len()),
    ensures
        spec_checksum(data1) == wadd(spec_checksum(data0), spec_checksum(content)),
{
    let pad_z = zero_seq(pad4(content.len() as int) - content.len());
    let chunk = content + pad_z;
    assert(data1 =~= data0 + chunk);
    lemma_checksum_zeros(content, pad_z);
    lemma_checksum_concat(data0, chunk);
}

/// Every record's region stays intact when a new padded region is appended.
proof fn lemma_add_table_regions(
    tables0: Seq<TableRecord>,
    data0: Seq<u8>,
    content: Seq<u8>,
    r: TableRecord,
    tables1: Seq<TableRecord>,
    data1: Seq<u8>,
)
    requires
        data0.len() % 4 == 0,
        forall|i: int|
            0 <= i < tables0.len() ==> rec_region_ok(#[trigger] tables0[i], data0),
        data0.len() + content.len() + 3 <= 0xFFFF_0000,
        r.checksum == spec_checksum(content),
        r.offset == data0.len(),
        r.length == content.len(),
        tables1 == tables0.push(r),
        data1 == data0 + content + zero_seq(pad4(content.len() as int) - content.len()),
    ensures
        forall|i: int|
            0 <= i < tables1.len() ==> rec_region_ok(#[trigger] tables1[i], data1),
{
    assert(data1.subrange(r.offset as int, r.offset + r.length) =~= content);
    assert(forall|j: int|
        r.offset + r.length <= j < r.offset + pad4(r.length as int) ==> data1[j] == 0);
    assert(rec_region_ok(r, data1));
    assert forall|i: int| 0 <= i < tables0.len() implies rec_region_ok(
        #[trigger] tables1[i],
        data1,
    ) by {
        assert(tables1[i] == tables0[i]);
        assert(rec_region_ok(tables0[i], data0));
        let rr = tables0[i];
        assert(data1.subrange(rr.offset as int, rr.offset + rr.length) =~= data0.subrange(
            rr.offset as int,
            rr.offset + rr.length,
        ));
    }
}


/// A record with its offset moved to its final position in the file.
pub open spec fn bump_rec(r: TableRecord, d: u32) -> TableRecord {
    TableRecord {
        tag: r.tag,
        checksum: r.checksum,
        offset: (r.offset + d) as u32,
        length: r.length,
    }
}

/// All records with their offsets moved to their final file positions.
pub open spec fn bump_records(s: Seq<TableRecord>, d: u32) -> Seq<TableRecord> {
    s.map_values(|r: TableRecord| bump_rec(r, d))
}

/// The directory records held by the emitted file `f` with `n` tables.
pub open spec fn dir_records(f: Seq<u8>, n: int) -> Seq<TableRecord> {
    Seq::new(
        n as nat,
        |i: int|
            TableRecord {
                tag: TableTag(rec_tag(f, i)),
                checksum: rec_checksum(f, i),
                offset: be32_at(f, 20 + 16 * i),
                length: be32_at(f, 24 + 16 * i),
            },
    )
}

/// Index of the first record tagged `head`, scanning from `i`.
pub open spec fn first_head_index(s: Seq<TableRecord>, i: int) -> int
    decreases s.len() - i when 0 <= i <= s.len()
{
    if i >= s.len() {
        s.len() as int
    } else if s[i].tag.0 == TAG_HEAD {
        i
    } else {
        first_head_index(s, i + 1)
    }
}

proof fn lemma_first_head_index(s: Seq<TableRecord>, i: int, p: int)
    requires
        0 <= i <= p <= s.len(),
        forall|j: int| i <= j < p ==> (#[trigger] s[j]).tag.0 != TAG_HEAD,
        p == s.len() || s[p].tag.0 == TAG_HEAD,
    ensures
        first_head_index(s, i) == p,
    decreases p - i,
{
    if i < p {
        lemma_first_head_index(s, i + 1, p);
    }
}

/// Where the `checksumAdjustment` word of the first `head` record lies in the
/// table data.
pub open spec fn head_patch_pos(s: Seq<TableRecord>) -> int {
    s[first_head_index(s, 0)].offset + 8
}

/// The whole-file checksum before adjustment: header words plus every
/// record's directory words (with final offsets) and table checksum.
pub open spec fn spec_file_checksum(tables: Seq<TableRecord>) -> u32 {
    let d = (12 + 16 * tables.len()) as u32;
    wadd(
        spec_checksum(sfnt_header_bytes(tables.len() as int)),
        wadd(rec_self_sum(bump_records(tables, d)), rec_checksum_sum(tables)),
    )
}

/// The value written into `head.checksumAdjustment` so the file sums to
/// `SFNT_CHECKSUM`.
pub open spec fn spec_adjustment(tables: Seq<TableRecord>) -> u32 {
    wsub(SFNT_CHECKSUM, spec_file_checksum(tables))
}

/// The table data as emitted: the adjustment word of the first `head` record
/// patched in.
pub open spec fn patched_table_data(tables: Seq<TableRecord>, data: Seq<u8>) -> Seq<u8> {
    patch4(data, head_patch_pos(tables), spec_adjustment(tables))
}

/// The `u32` read back from four bytes known to be a serialized value.
proof fn lemma_be32_from(f: Seq<u8>, p: int, v: u32)
    requires
        0 <= p,
        p + 4 <= f.len(),
        f.subrange(p, p + 4) == u32_bytes(v),
    ensures
        be32_at(f, p) == v,
{
    lemma_be32_u32_bytes(v);
    assert(f[p] == u32_bytes(v)[0] && f[p + 1] == u32_bytes(v)[1] && f[p + 2] == u32_bytes(v)[2]
        && f[p + 3] == u32_bytes(v)[3]) by {
        assert(forall|j: int| 0 <= j < 4 ==> f[p + j] == #[trigger] f.subrange(p, p + 4)[j]);
    }
}

/// Entry `i` of the serialized directory is record `i`'s 16 bytes.
proof fn lemma_directory_entry(s: Seq<TableRecord>, i: int)
    requires
        0 <= i < s.len(),
    ensures
        directory_bytes(s).subrange(16 * i, 16 * i + 16) == s[i].opentype_bytes(),
    decreases s.len(),
{
    lemma_directory_bytes_len(s);
    s[i].lemma_opentype_bytes_checksum();
    if i == s.len() - 1 {
        lemma_directory_bytes_len(s.drop_last());
        assert(directory_bytes(s).subrange(16 * i, 16 * i + 16) =~= s[i].opentype_bytes());
    } else {
        lemma_directory_entry(s.drop_last(), i);
        lemma_directory_bytes_len(s.drop_last());
        assert(directory_bytes(s).subrange(16 * i, 16 * i + 16) =~= directory_bytes(
            s.drop_last(),
        ).subrange(16 * i, 16 * i + 16));
    }
}

/// One emitted table region: its checksum claim over the patched data, by
/// whether the record is the patched `head` or lies clear of the patched word.
proof fn lemma_patched_window(
    v: TableRecord,
    raw: Seq<TableRecord>,
    data: Seq<u8>,
    d: u32,
    patch_pos: int,
    adjustment: u32,
)
    requires
        raw.len() >= 1,
        raw.len() <= 0xFFF,
        d == 12 + 16 * raw.len(),
        bump_records(raw, d).contains(v),
        data.len() <= 0xFFFF_0000,
        forall|i: int| 0 <= i < raw.len() ==> rec_region_ok(#[trigger] raw[i], data),
        forall|i: int, j: int|
            0 <= i < j < raw.len() ==> (#[trigger] raw[i]).offset + pad4(raw[i].length as int)
                <= (#[trigger] raw[j]).offset,
        0 <= first_head_index(raw, 0) < raw.len(),
        patch_pos == head_patch_pos(raw),
        forall|k: int|
            0 <= k < raw.len() && (#[trigger] raw[k]).tag.0 == TAG_HEAD ==> raw[k].length >= 12
                && (forall|j: int|
                raw[k].offset + 8 <= j < raw[k].offset + 12 ==> data[j] == 0),
    ensures
        ({
            let w = patch4(data, patch_pos, adjustment).subrange(
                v.offset - d,
                v.offset - d + v.length,
            );
            &&& d <= v.offset
            &&& v.offset % 4 == 0
            &&& v.offset - d + v.length <= data.len()
            &&& if v.tag.0 == TAG_HEAD {
                v.length >= 12 && v.checksum == wsub(spec_checksum(w), be32_at(w, 8))
            } else {
                v.checksum == spec_checksum(w)
            }
        }),
{
    let patched = patch4(data, patch_pos, adjustment);
    let kh = first_head_index(raw, 0);
    lemma_first_head_props(raw);
    let j0 = choose|j0: int| 0 <= j0 < raw.len() && bump_records(raw, d)[j0] == v;
    let rr = raw[j0];
    assert(rec_region_ok(rr, data));
    assert(rec_region_ok(raw[kh], data));
    assert(raw[kh].length >= 12);
    assert(v.offset == rr.offset + d && v.length == rr.length && v.tag == rr.tag && v.checksum
        == rr.checksum);
    let off = rr.offset as int;
    let len = rr.length as int;
    let win = data.subrange(off, off + len);
    let pwin = patched.subrange(off, off + len);
    if j0 == kh {
        // The patched word lies inside this window, 8 bytes in.
        assert(rr.tag.0 == TAG_HEAD);
        assert(patch_pos == off + 8);
        assert(pwin =~= patch4(win, 8, adjustment));
        assert(forall|t: int| 8 <= t < 12 ==> win[t] == 0);
        lemma_checksum_patch(win, 8, adjustment);
        assert(pwin.subrange(8, 12) =~= u32_bytes(adjustment));
        lemma_be32_from(pwin, 8, adjustment);
        lemma_wsub_wadd(spec_checksum(win), adjustment);
    } else {
        // Regions of distinct records are disjoint from the patched word.
        if j0 < kh {
            assert(rr.offset + pad4(rr.length as int) <= raw[kh].offset);
        } else {
            assert(raw[kh].offset + pad4(raw[kh].length as int) <= rr.offset);
            assert(pad4(raw[kh].length as int) >= 12);
        }
        assert(pwin =~= win);
        if rr.tag.0 == TAG_HEAD {
            // A further head record: its own adjustment word is zero.
            assert(win.subrange(8, 12) =~= u32_bytes(0u32)) by {
                assert(forall|t: int| rr.offset + 8 <= t < rr.offset + 12 ==> data[t] == 0);
            }
            lemma_be32_from(win, 8, 0u32);
            lemma_wsub_zero(v.checksum);
        }
    }
}

/// The four directory words of entry `i` in the assembled file.
#[verifier::rlimit(100)]
#[verifier::spinoff_prover]
proof fn lemma_dir_entry_fields(out: Seq<u8>, header: Seq<u8>, sorted: Seq<TableRecord>, i: int)
    requires
        header.len() == 12,
        0 <= i < sorted.len(),
        out.len() >= 12 + 16 * (sorted.len() as int),
        out.subrange(12, 12 + 16 * (sorted.len() as int)) == directory_bytes(sorted),
    ensures
        rec_tag(out, i) == sorted[i].tag.0,
        rec_checksum(out, i) == sorted[i].checksum,
        be32_at(out, 20 + 16 * i) == sorted[i].offset,
        be32_at(out, 24 + 16 * i) == sorted[i].length,
{
    lemma_directory_entry(sorted, i);
    lemma_directory_bytes_len(sorted);
    assert(out.subrange(12 + 16 * i, 12 + 16 * i + 16) =~= directory_bytes(sorted).subrange(
        16 * i,
        16 * i + 16,
    )) by {
        assert(forall|t: int|
            0 <= t < 16 * (sorted.len() as int) ==> out[12 + t] == #[trigger] out.subrange(
                12,
                12 + 16 * (sorted.len() as int),
            )[t]);
    }
    let e = sorted[i].opentype_bytes();
    assert(e.subrange(0, 4) =~= u32_bytes(sorted[i].tag.0));
    assert(e.subrange(4, 8) =~= u32_bytes(sorted[i].checksum));
    assert(e.subrange(8, 12) =~= u32_bytes(sorted[i].offset));
    assert(e.subrange(12, 16) =~= u32_bytes(sorted[i].length));
    assert(forall|t: int|
        0 <= t < 16 ==> out[12 + 16 * i + t] == #[trigger] out.subrange(
            12 + 16 * i,
            12 + 16 * i + 16,
        )[t]);
    assert(out.subrange(12 + 16 * i, 12 + 16 * i + 4) =~= u32_bytes(sorted[i].tag.0));
    assert(out.subrange(16 + 16 * i, 16 + 16 * i + 4) =~= u32_bytes(sorted[i].checksum));
    assert(out.subrange(20 + 16 * i, 20 + 16 * i + 4) =~= u32_bytes(sorted[i].offset));
    assert(out.subrange(24 + 16 * i, 24 + 16 * i + 4) =~= u32_bytes(sorted[i].length));
    lemma_be32_from(out, 12 + 16 * i, sorted[i].tag.0);
    lemma_be32_from(out, 16 + 16 * i, sorted[i].checksum);
    lemma_be32_from(out, 20 + 16 * i, sorted[i].offset);
    lemma_be32_from(out, 24 + 16 * i, sorted[i].length);
}

/// Reading the directory of the assembled file gives back the sorted records,
/// every table region checks out (`rec_ok`), and the tags ascend.
#[verifier::rlimit(100)]
proof fn lemma_emitted_directory(
    out: Seq<u8>,
    header: Seq<u8>,
    sorted: Seq<TableRecord>,
    raw: Seq<TableRecord>,
    data: Seq<u8>,
    d: u32,
    patch_pos: int,
    adjustment: u32,
)
    requires
        header.len() == 12,
        raw.len() >= 1,
        raw.len() <= 0xFFF,
        d == 12 + 16 * raw.len(),
        out == header + directory_bytes(sorted) + patch4(data, patch_pos, adjustment),
        sorted.to_multiset() == bump_records(raw, d).to_multiset(),
        records_sorted(sorted),
        data.len() % 4 == 0,
        data.len() <= 0xFFFF_0000,
        forall|i: int| 0 <= i < raw.len() ==> rec_region_ok(#[trigger] raw[i], data),
        forall|i: int, j: int|
            0 <= i < j < raw.len() ==> (#[trigger] raw[i]).offset + pad4(raw[i].length as int)
                <= (#[trigger] raw[j]).offset,
        0 <= first_head_index(raw, 0) < raw.len(),
        patch_pos == head_patch_pos(raw),
        forall|k: int|
            0 <= k < raw.len() && (#[trigger] raw[k]).tag.0 == TAG_HEAD ==> raw[k].length >= 12
                && (forall|j: int|
                raw[k].offset + 8 <= j < raw[k].offset + 12 ==> data[j] == 0),
    ensures
        dir_records(out, raw.len() as int) == sorted,
        forall|i: int| 0 <= i < raw.len() ==> rec_ok(out, i),
        forall|i: int, j: int|
            0 <= i < j < raw.len() ==> rec_tag(out, i) <= rec_tag(out, j),
{
    broadcast use vstd::seq_lib::group_to_multiset_ensures;

    let n = raw.len() as int;
    let bumped = bump_records(raw, d);
    let patched = patch4(data, patch_pos, adjustment);
    lemma_directory_bytes_len(sorted);
    assert(sorted.to_multiset().len() == sorted.len());
    assert(out.subrange(12, 12 + 16 * (sorted.len() as int)) =~= directory_bytes(sorted));
    assert(bumped.to_multiset().len() == bumped.len());
    assert(sorted.len() == n);
    assert(out.len() == 12 + 16 * n + data.len());

    // Directory fields.
    assert forall|i: int| 0 <= i < n implies rec_tag(out, i) == (#[trigger] sorted[i]).tag.0
        && rec_checksum(out, i) == sorted[i].checksum && be32_at(out, 20 + 16 * i)
        == sorted[i].offset && be32_at(out, 24 + 16 * i) == sorted[i].length by {
        lemma_dir_entry_fields(out, header, sorted, i);
    }
    assert(dir_records(out, n) =~= sorted);

    // Sorted tags.
    assert forall|i: int, j: int| 0 <= i < j < n implies rec_tag(out, i) <= rec_tag(out, j) by {
        assert(sorted[i].tag.0 <= sorted[j].tag.0);
    }

    // Every table region of the output checks out.
    assert forall|i: int| 0 <= i < n implies rec_ok(out, i) by {
        let v = sorted[i];
        assert(bumped.to_multiset().count(v) > 0) by {
            assert(sorted.contains(v));
        }
        assert(bumped.contains(v));
        lemma_patched_window(v, raw, data, d, patch_pos, adjustment);
        let w = patched.subrange(v.offset - d, v.offset - d + v.length);
        assert(rec_off(out, i) == v.offset && rec_len(out, i) == v.length && rec_tag(out, i)
            == v.tag.0 && rec_checksum(out, i) == v.checksum);
        assert(rec_window(out, i) =~= w);
    }
}

/// The first head index really lands on a head record when one exists.
proof fn lemma_first_head_props(s: Seq<TableRecord>)
    requires
        first_head_index(s, 0) < s.len(),
    ensures
        0 <= first_head_index(s, 0),
        s[first_head_index(s, 0)].tag.0 == TAG_HEAD,
{
    lemma_first_head_at(s, 0);
}

proof fn lemma_first_head_at(s: Seq<TableRecord>, i: int)
    requires
        0 <= i <= s.len(),
    ensures
        i <= first_head_index(s, i) <= s.len(),
        first_head_index(s, i) < s.len() ==> s[first_head_index(s, i)].tag.0 == TAG_HEAD,
    decreases s.len() - i,
{
    if i < s.len() && s[i].tag.0 != TAG_HEAD {
        lemma_first_head_at(s, i + 1);
    }
}

/// Per-table checksum correctness: every directory record an assembled
/// builder holds carries exactly the checksum recomputed from its (unpadded)
/// window of the table data, and the regions are aligned and disjoint.
pub proof fn lemma_per_table_checksums(b: FontBuilder)
    requires
        b.wf(),
    ensures
        forall|i: int|
            0 <= i < b.tables@.len() ==> {
                let r = #[trigger] b.tables@[i];
                &&& r.offset % 4 == 0
                &&& r.offset + r.length <= b.table_data@.len()
                &&& r.checksum == spec_checksum(
                    b.table_data@.subrange(r.offset as int, r.offset + r.length),
                )
            },
{
    assert forall|i: int| 0 <= i < b.tables@.len() implies {
        let r = #[trigger] b.tables@[i];
        &&& r.offset % 4 == 0
        &&& r.offset + r.length <= b.table_data@.len()
        &&& r.checksum == spec_checksum(
            b.table_data@.subrange(r.offset as int, r.offset + r.length),
        )
    } by {
        assert(rec_region_ok(b.tables@[i], b.table_data@));
    }
}

/// Sorted ascending by tag value (lexicographic on the tag bytes).
pub open spec fn records_sorted(s: Seq<TableRecord>) -> bool {
    forall|i: int, j: int|
        0 <= i < j < s.len() ==> (#[trigger] s[i]).tag.0 <= (#[trigger] s[j]).tag.0
}

/// Sorts the directory records by tag with insertion sort.
#[verifier::loop_isolation(false)]
fn sort_records(tables: &mut Vec<TableRecord>)
    ensures
        final(tables)@.len() == old(tables)@.len(),
        final(tables)@.to_multiset() == old(tables)@.to_multiset(),
        records_sorted(final(tables)@),
{
    let len = tables.len();
    let mut i: usize = 1;
    while i < len
        invariant
            1 <= i <= len || len == 0,
            tables@.len() == len,
            tables@.to_multiset() == old(tables)@.to_multiset(),
            forall|a: int, b: int| 0 <= a < b < i ==> (#[trigger] tables@[a]).tag.0 <= (
            #[trigger] tables@[b]).tag.0,
        decreases len - i,
    {
        let ghost before = tables@;
        let x = tables.remove(i);
        // Find the insertion position among the sorted prefix.
        let mut j: usize = 0;
        while j < i && tables[j].tag.0 <= x.tag.0
            invariant
                0 <= j <= i < len,
                tables@ == before.remove(i as int),
                forall|a: int| 0 <= a < j ==> (#[trigger] tables@[a]).tag.0 <= x.tag.0,
            decreases i - j,
        {
            j = j + 1;
        }
        tables.insert(j, x);
        proof {
            broadcast use vstd::seq_lib::group_to_multiset_ensures;

            let removed = before.remove(i as int);
            let restored = removed.insert(j as int, x);
            assert(tables@ == restored);
            assert(removed.to_multiset() =~= before.to_multiset().remove(before[i as int]));
            assert(restored =~= removed.subrange(0, j as int) + seq![x] + removed.subrange(
                j as int,
                removed.len() as int,
            ));
            vstd::seq_lib::lemma_multiset_commutative(
                removed.subrange(0, j as int) + seq![x],
                removed.subrange(j as int, removed.len() as int),
            );
            vstd::seq_lib::lemma_multiset_commutative(
                removed.subrange(0, j as int),
                seq![x],
            );
            assert(removed =~= removed.subrange(0, j as int) + removed.subrange(
                j as int,
                removed.len() as int,
            ));
            vstd::seq_lib::lemma_multiset_commutative(
                removed.subrange(0, j as int),
                removed.subrange(j as int, removed.len() as int),
            );
            assert(seq![x].to_multiset() =~= Multiset::<TableRecord>::empty().insert(x)) by {
                assert(seq![x].drop_last() =~= Seq::<TableRecord>::empty());
                assert(Seq::<TableRecord>::empty().push(x) =~= seq![x]);
            }
            assert(restored.to_multiset() =~= before.to_multiset());
            // Sortedness of the prefix of length i + 1.
            assert forall|a: int, b: int| 0 <= a < b < i + 1 implies (
            #[trigger] tables@[a]).tag.0 <= (#[trigger] tables@[b]).tag.0 by {
                assert(forall|t: int|
                    0 <= t < removed.len() ==> removed[t] == if t < i {
                        before[t]
                    } else {
                        before[t + 1]
                    });
                if a == j {
                } else if b == j {
                } else {
                }
            }
        }
        i = i + 1;
    }
}

/// The 12 bytes of the `sfnt` header for `n` tables.
pub open spec fn sfnt_header_bytes(n: int) -> Seq<u8> {
    let es = spec_floor_log2(n as nat);
    let sr = 16 * pow2(es);
    u32_bytes(SFNT_VERSION) + u16_bytes(n as u16) + u16_bytes(sr as u16) + u16_bytes(es as u16)
        + u16_bytes((16 * n - sr) as u16)
}

impl FontBuilder {
    /// Writes the `sfnt` header: version, table count, and the binary-search
    /// helper fields.
    fn write_sfnt_header(&self) -> (r: Vec<u8>)
        requires
            1 <= self.tables@.len() <= 0xFFF,
        ensures
            r@ == sfnt_header_bytes(self.tables@.len() as int),
            r@.len() == 12,
    {
        let table_count = self.tables.len() as u16;
        let mut buffer: Vec<u8> = Vec::new();
        write_u32(&mut buffer, SFNT_VERSION);
        write_u16(&mut buffer, table_count);
        let (entry_selector, p) = floor_log2(table_count);
        proof {
            reveal_with_fuel(pow2, 14);
            assert(pow2(12) == 4096);
        }
        let search_range = 16 * p;
        write_u16(&mut buffer, search_range);
        write_u16(&mut buffer, entry_selector);
        let range_shift = 16 * table_count - search_range;
        write_u16(&mut buffer, range_shift);
        proof {
            assert(buffer@ =~= sfnt_header_bytes(self.tables@.len() as int));
        }
        buffer
    }

    /// Offset where the table data begins: header plus directory.
    pub fn data_offset(&self) -> (r: usize)
        requires
            self.tables@.len() <= 0xFFF,
        ensures
            r == 12 + 16 * self.tables@.len(),
    {
        12 + self.tables.len() * 16
    }
}

/// The builder holds a patchable `head` table: present, at least 12 bytes
/// long, and with a zeroed `checksumAdjustment` field.
pub open spec fn builder_head_ok(b: FontBuilder) -> bool {
    &&& (exists|k: int| 0 <= k < b.tables@.len() && (#[trigger] b.tables@[k]).tag.0 == TAG_HEAD)
    &&& (forall|k: int|
        0 <= k < b.tables@.len() && (#[trigger] b.tables@[k]).tag.0 == TAG_HEAD ==> {
            let r = b.tables@[k];
            &&& r.length >= 12
            &&& (forall|j: int|
                r.offset + 8 <= j < r.offset + 12 ==> b.table_data@[j] == 0)
        })
}

/// `data` with the word at `[p, p + 4)` replaced by the bytes of `v`.
pub open spec fn patch4(data: Seq<u8>, p: int, v: u32) -> Seq<u8> {
    Seq::new(
        data.len(),
        |j: int|
            if p <= j < p + 4 {
                u32_bytes(v)[j - p]
            } else {
                data[j]
            },
    )
}

/// Replacing an aligned zero word adds its value to the checksum.
proof fn lemma_checksum_patch(data: Seq<u8>, p: int, v: u32)
    requires
        0 <= p,
        p % 4 == 0,
        p + 4 <= data.len(),
        forall|j: int| p <= j < p + 4 ==> data[j] == 0,
    ensures
        spec_checksum(patch4(data, p, v)) == wadd(spec_checksum(data), v),
{
    let a = data.subrange(0, p);
    let z = data.subrange(p, p + 4);
    let q = data.subrange(p + 4, data.len() as int);
    let patched = patch4(data, p, v);
    assert(data =~= a + z + q);
    assert(patched =~= a + u32_bytes(v) + q);
    assert(a.len() % 4 == 0);
    lemma_checksum_concat(a, z + q);
    lemma_checksum_concat(z, q);
    assert((a + z + q) =~= a + (z + q));
    lemma_checksum_concat(a, u32_bytes(v) + q);
    lemma_checksum_concat(u32_bytes(v), q);
    assert((a + u32_bytes(v) + q) =~= a + (u32_bytes(v) + q));
    assert(spec_checksum(z) == 0) by {
        assert(word_at(z, 0) == 0);
        assert(checksum_from(z, 4) == 0);
        lemma_wadd_zero(0);
    }
    assert(spec_checksum(u32_bytes(v)) == v) by {
        lemma_be32_u32_bytes(v);
        assert(word_at(u32_bytes(v), 0) == be32_at(u32_bytes(v), 0));
        assert(checksum_from(u32_bytes(v), 4) == 0);
        lemma_wadd_zero(v);
    }
    let ca = spec_checksum(a);
    let cq = spec_checksum(q);
    lemma_wadd_zero(cq);
    // checksum(data) == wadd(ca, cq); checksum(patched) == wadd(ca, wadd(v, cq)).
    lemma_wadd_assoc(ca, v, cq);
    lemma_wadd_comm(v, cq);
    lemma_wadd_assoc(ca, cq, v);
}

/// Pushing a record extends both wrapping sums by its weights.
pub proof fn lemma_rec_sums_push(s: Seq<TableRecord>, r: TableRecord)
    ensures
        rec_checksum_sum(s.push(r)) == wadd(rec_checksum_sum(s), r.checksum),
        rec_self_sum(s.push(r)) == wadd(rec_self_sum(s), r.spec_self_checksum()),
{
    assert(s.push(r).drop_last() =~= s);
    assert(s.push(r).last() == r);
}

/// One step of the whole-file checksum accumulation.
pub proof fn lemma_bump_step(hc: u32, ss: u32, cs: u32, sc: u32, ck: u32, acc: u32)
    requires
        acc == wadd(hc, wadd(ss, cs)),
    ensures
        wadd(wadd(acc, sc), ck) == wadd(hc, wadd(wadd(ss, sc), wadd(cs, ck))),
{
    lemma_wadd_assoc(hc, wadd(ss, cs), sc);
    lemma_wadd_assoc(ss, cs, sc);
    lemma_wadd_comm(cs, sc);
    lemma_wadd_assoc(ss, sc, cs);
    lemma_wadd_assoc(hc, wadd(wadd(ss, sc), cs), ck);
    lemma_wadd_assoc(wadd(ss, sc), cs, ck);
}

/// Four-term reshuffle of wrapping addition.
proof fn lemma_wadd_shuffle(a: u32, b: u32, c: u32, d: u32)
    ensures
        wadd(wadd(a, b), wadd(c, d)) == wadd(wadd(a, c), wadd(b, d)),
{
    lemma_wadd_assoc(wadd(a, b), c, d);
    lemma_wadd_assoc(a, b, c);
    lemma_wadd_comm(b, c);
    lemma_wadd_assoc(a, c, b);
    lemma_wadd_assoc(wadd(a, c), b, d);
}

/// Bumping offsets does not change the stored checksums.
proof fn lemma_bump_checksum_sum(s0: Seq<TableRecord>, s1: Seq<TableRecord>)
    requires
        s0.len() == s1.len(),
        forall|i: int|
            0 <= i < s0.len() ==> (#[trigger] s1[i]).checksum == s0[i].checksum,
    ensures
        rec_checksum_sum(s1) == rec_checksum_sum(s0),
    decreases s0.len(),
{
    if s0.len() > 0 {
        assert(s1.drop_last().len() == s0.drop_last().len());
        assert(forall|i: int|
            0 <= i < s0.drop_last().len() ==> (#[trigger] s1.drop_last()[i]).checksum
                == s0.drop_last()[i].checksum);
        lemma_bump_checksum_sum(s0.drop_last(), s1.drop_last());
    }
}

impl FontBuilder {
    /// Emits the subset as a standalone OpenType font: `sfnt` header, the
    /// directory sorted by tag, and the table data with `checksumAdjustment`
    /// patched so that the whole file sums to `SFNT_CHECKSUM`.
    #[verifier::rlimit(100)]
    pub fn into_truetype(self) -> (out: Vec<u8>)
        requires
            self.wf(),
            self.tables@.len() >= 1,
            builder_head_ok(self),
        ensures
            out@.len() == 12 + 16 * self.tables@.len() + self.table_data@.len(),
            out@.len() % 4 == 0,
            out@.subrange(0, 12) == sfnt_header_bytes(self.tables@.len() as int),
            be32_at(out@, 0) == SFNT_VERSION,
            be16_at(out@, 4) == self.tables@.len(),
            spec_checksum(out@) == SFNT_CHECKSUM,
            out@.subrange(12 + 16 * (self.tables@.len() as int), out@.len() as int)
                == patched_table_data(self.tables@, self.table_data@),
            dir_records(out@, self.tables@.len() as int).to_multiset() == bump_records(
                self.tables@,
                (12 + 16 * self.tables@.len()) as u32,
            ).to_multiset(),
            forall|i: int, j: int|
                0 <= i < j < self.tables@.len() ==> rec_tag(out@, i) <= rec_tag(out@, j),
            forall|i: int| 0 <= i < self.tables@.len() ==> rec_ok(out@, i),
    {
        let ghost tables0 = self.tables@;
        let ghost data0 = self.table_data@;
        let mut this = self;
        let header = this.write_sfnt_header();
        let header_checksum = checksum(header.as_slice());
        let data_offset = this.data_offset();
        let data_offset_u32 = data_offset as u32;

        // Bump record offsets to their final file positions and accumulate the
        // whole-file checksum over the directory words and table checksums.
        let n = this.tables.len();
        let mut adjusted: Vec<TableRecord> = Vec::new();
        let mut file_checksum = header_checksum;
        proof {
            assert forall|k: int| 0 <= k < tables0.len() implies (
            #[trigger] tables0[k]).offset <= 0xFFFF_0000 by {
                assert(rec_region_ok(tables0[k], data0));
            }
            lemma_wadd_zero(0);
            lemma_wadd_zero(header_checksum);
            assert(rec_self_sum(adjusted@) == 0 && rec_checksum_sum(adjusted@) == 0);
        }
        let mut i: usize = 0;
        while i < n
            invariant
                0 <= i <= n,
                n == tables0.len(),
                1 <= n <= 0xFFF,
                forall|k: int| 0 <= k < n ==> (#[trigger] tables0[k]).offset <= 0xFFFF_0000,
                this.tables@ == tables0,
                this.table_data@ == data0,
                data_offset_u32 == 12 + 16 * (n as int),
                adjusted@.len() == i,
                adjusted@ == bump_records(tables0.subrange(0, i as int), data_offset_u32),
                file_checksum == wadd(
                    header_checksum,
                    wadd(rec_self_sum(adjusted@), rec_checksum_sum(adjusted@)),
                ),
            decreases n - i,
        {
            let ghost adj0 = adjusted@;
            let r = this.tables[i];
            let bumped = TableRecord {
                tag: r.tag,
                checksum: r.checksum,
                offset: r.offset + data_offset_u32,
                length: r.length,
            };
            let sc = bumped.self_checksum();
            file_checksum = wadd_exec(wadd_exec(file_checksum, sc), bumped.checksum);
            adjusted.push(bumped);
            proof {
                lemma_rec_sums_push(adj0, bumped);
                lemma_bump_step(
                    header_checksum,
                    rec_self_sum(adj0),
                    rec_checksum_sum(adj0),
                    sc,
                    bumped.checksum,
                    wadd(header_checksum, wadd(rec_self_sum(adj0), rec_checksum_sum(adj0))),
                );
                assert(adjusted@ =~= bump_records(tables0.subrange(0, i + 1), data_offset_u32))
                    by {
                    assert(tables0.subrange(0, i + 1).drop_last() =~= tables0.subrange(
                        0,
                        i as int,
                    ));
                    assert(forall|t: int|
                        0 <= t < i + 1 ==> #[trigger] bump_records(
                            tables0.subrange(0, i + 1),
                            data_offset_u32,
                        )[t] == bump_rec(tables0[t], data_offset_u32));
                }
            }
            i = i + 1;
        }
        proof {
            assert(tables0.subrange(0, n as int) =~= tables0);
        }

        // Locate the `head` table and patch its checksum adjustment, so that
        // the finished file sums to the required constant.
        let adjustment = wsub_exec(SFNT_CHECKSUM, file_checksum);
        let mut head_pos: usize = 0;
        let mut found = false;
        let mut k: usize = 0;
        while k < n
            invariant
                0 <= k <= n,
                n == tables0.len(),
                this.tables@ == tables0,
                found ==> 0 <= head_pos < n && tables0[head_pos as int].tag.0 == TAG_HEAD
                    && (forall|t: int|
                    0 <= t < head_pos ==> (#[trigger] tables0[t]).tag.0 != TAG_HEAD),
                !found ==> forall|t: int| 0 <= t < k ==> (#[trigger] tables0[t]).tag.0 != TAG_HEAD,
            decreases n - k,
        {
            if !found && this.tables[k].tag.0 == TAG_HEAD {
                head_pos = k;
                found = true;
            }
            k = k + 1;
        }
        proof {
            if !found {
                let w = choose|w: int| 0 <= w < tables0.len() && (#[trigger] tables0[w]).tag.0
                    == TAG_HEAD;
                assert(false);
            }
            lemma_first_head_index(tables0, 0, head_pos as int);
        }
        let head_rec = this.tables[head_pos];
        let patch_pos = head_rec.offset as usize + 8;
        let ghost patched = patch4(data0, patch_pos as int, adjustment);
        proof {
            assert(rec_region_ok(tables0[head_pos as int], data0));
            assert(head_rec.length >= 12);
            assert(patch_pos + 4 <= data0.len());
            assert(patch_pos as int == head_patch_pos(tables0));
            lemma_checksum_patch(data0, patch_pos as int, adjustment);
        }

        // Sort the directory records by tag.
        let ghost adjusted_pre = adjusted@;
        sort_records(&mut adjusted);
        proof {
            lemma_rec_sums_permutation(adjusted@, adjusted_pre);
        }

        let out = assemble_opentype(header, &adjusted, &this.table_data, patch_pos, adjustment);
        proof {
            assert(rec_checksum_sum(adjusted_pre) == rec_checksum_sum(tables0)) by {
                lemma_bump_checksum_sum(tables0, adjusted_pre);
            }
            assert(file_checksum == spec_file_checksum(tables0));
            lemma_truetype_final(
                self,
                out@,
                header@,
                adjusted@,
                patch_pos as int,
                adjustment,
                file_checksum,
                header_checksum,
            );
        }
        out
    }
}

/// Collects the whole-file facts of the OpenType emission from the assembled
/// pieces: checksum constant, header fields, patched heap, and the directory.
#[verifier::rlimit(100)]
#[verifier::spinoff_prover]
proof fn lemma_truetype_final(
    b: FontBuilder,
    out: Seq<u8>,
    header: Seq<u8>,
    sorted: Seq<TableRecord>,
    patch_pos: int,
    adjustment: u32,
    file_checksum: u32,
    header_checksum: u32,
)
    requires
        b.wf(),
        b.tables@.len() >= 1,
        builder_head_ok(b),
        header == sfnt_header_bytes(b.tables@.len() as int),
        header_checksum == spec_checksum(header),
        sorted.to_multiset() == bump_records(
            b.tables@,
            (12 + 16 * b.tables@.len()) as u32,
        ).to_multiset(),
        records_sorted(sorted),
        0 <= first_head_index(b.tables@, 0) < b.tables@.len(),
        patch_pos == head_patch_pos(b.tables@),
        patch_pos % 4 == 0,
        patch_pos + 4 <= b.table_data@.len(),
        file_checksum == spec_file_checksum(b.tables@),
        adjustment == wsub(SFNT_CHECKSUM, file_checksum),
        out == header + directory_bytes(sorted) + patch4(b.table_data@, patch_pos, adjustment),
    ensures
        out.len() == 12 + 16 * b.tables@.len() + b.table_data@.len(),
        out.len() % 4 == 0,
        out.subrange(0, 12) == sfnt_header_bytes(b.tables@.len() as int),
        be32_at(out, 0) == SFNT_VERSION,
        be16_at(out, 4) == b.tables@.len(),
        spec_checksum(out) == SFNT_CHECKSUM,
        out.subrange(12 + 16 * (b.tables@.len() as int), out.len() as int) == patched_table_data(
            b.tables@,
            b.table_data@,
        ),
        dir_records(out, b.tables@.len() as int).to_multiset() == bump_records(
            b.tables@,
            (12 + 16 * b.tables@.len()) as u32,
        ).to_multiset(),
        forall|i: int, j: int|
            0 <= i < j < b.tables@.len() ==> rec_tag(out, i) <= rec_tag(out, j),
        forall|i: int| 0 <= i < b.tables@.len() ==> rec_ok(out, i),
{
    broadcast use vstd::seq_lib::group_to_multiset_ensures;

    let n = b.tables@.len() as int;
    let tables0 = b.tables@;
    let data0 = b.table_data@;
    let d = (12 + 16 * n) as u32;
    let patched = patch4(data0, patch_pos, adjustment);
    lemma_first_head_props(tables0);
    let kh = first_head_index(tables0, 0);
    assert(rec_region_ok(tables0[kh], data0));
    assert(forall|t: int| patch_pos <= t < patch_pos + 4 ==> data0[t] == 0);
    lemma_checksum_patch(data0, patch_pos, adjustment);
    lemma_directory_bytes_len(sorted);
    lemma_directory_checksum(sorted);
    assert(sorted.to_multiset().len() == sorted.len());
    assert(bump_records(tables0, d).to_multiset().len() == bump_records(tables0, d).len());
    assert(rec_self_sum(sorted) == rec_self_sum(bump_records(tables0, d))
        && rec_checksum_sum(sorted) == rec_checksum_sum(bump_records(tables0, d))) by {
        lemma_rec_sums_permutation(sorted, bump_records(tables0, d));
    }
    assert(rec_checksum_sum(bump_records(tables0, d)) == rec_checksum_sum(tables0)) by {
        lemma_bump_checksum_sum(tables0, bump_records(tables0, d));
    }
    assert(file_checksum == wadd(
        header_checksum,
        wadd(rec_self_sum(sorted), rec_checksum_sum(tables0)),
    ));
    lemma_truetype_checksum(
        out,
        header,
        directory_bytes(sorted),
        data0,
        patched,
        header_checksum,
        rec_self_sum(sorted),
        rec_checksum_sum(tables0),
        adjustment,
        file_checksum,
        n,
    );
    assert(out.subrange(0, 12) =~= header);
    lemma_header_fields(out, n);
    assert(out.subrange(12 + 16 * n, out.len() as int) =~= patched);
    assert(patched == patched_table_data(b.tables@, b.table_data@));
    lemma_emitted_directory(out, header, sorted, tables0, data0, d, patch_pos, adjustment);
    assert(dir_records(out, n).to_multiset() == bump_records(tables0, d).to_multiset());
}

/// Writes the directory records (already sorted) and the table data with the
/// adjustment word patched in.
#[verifier::rlimit(100)]
fn assemble_opentype(
    header: Vec<u8>,
    tables: &Vec<TableRecord>,
    data: &Vec<u8>,
    patch_pos: usize,
    adjustment: u32,
) -> (out: Vec<u8>)
    requires
        header@.len() == 12,
        tables@.len() <= 0xFFF,
        patch_pos + 4 <= data@.len(),
        data@.len() <= 0xFFFF_0000,
    ensures
        out@ == header@ + directory_bytes(tables@) + patch4(
            data@,
            patch_pos as int,
            adjustment,
        ),
        out@.subrange(0, 12) == header@,
        out@.len() == 12 + 16 * tables@.len() + data@.len(),
{
    let ghost patched = patch4(data@, patch_pos as int, adjustment);
    let n = tables.len();
    let mut out = header;
    let mut d: usize = 0;
    while d < n
        invariant
            0 <= d <= n,
            n == tables@.len(),
            out@ == header@ + directory_bytes(tables@.subrange(0, d as int)),
            out@.len() == 12 + 16 * (d as int),
        decreases n - d,
    {
        let ghost prefix = tables@.subrange(0, d as int);
        tables[d].write_opentype(&mut out);
        proof {
            let next = tables@.subrange(0, d + 1);
            assert(next.drop_last() =~= prefix);
            assert(next.last() == tables@[d as int]);
        }
        d = d + 1;
    }
    proof {
        assert(tables@.subrange(0, tables@.len() as int) =~= tables@);
        lemma_directory_bytes_len(tables@);
    }
    let data_len = data.len();
    let mut j: usize = 0;
    while j < data_len
        invariant
            0 <= j <= data_len,
            data_len == data@.len(),
            patch_pos + 4 <= data@.len(),
            patched == patch4(data@, patch_pos as int, adjustment),
            out@ == header@ + directory_bytes(tables@) + patched.subrange(0, j as int),
        decreases data_len - j,
    {
        let b: u8 = if j >= patch_pos && j < patch_pos + 4 {
            let adj_bytes_idx = j - patch_pos;
            if adj_bytes_idx == 0 {
                (adjustment / 0x100_0000) as u8
            } else if adj_bytes_idx == 1 {
                ((adjustment / 0x1_0000) % 0x100) as u8
            } else if adj_bytes_idx == 2 {
                ((adjustment / 0x100) % 0x100) as u8
            } else {
                (adjustment % 0x100) as u8
            }
        } else {
            data[j]
        };
        out.push(b);
        proof {
            assert(out@ =~= header@ + directory_bytes(tables@) + patched.subrange(0, j + 1));
        }
        j = j + 1;
    }
    proof {
        assert(patched.subrange(0, patched.len() as int) =~= patched);
        lemma_directory_bytes_len(tables@);
        assert(out@.subrange(0, 12) =~= header@);
    }
    out
}


/// The assembled file sums to the checksum constant: the adjustment absorbs
/// the header, directory, and table sums.
proof fn lemma_truetype_checksum(
    out: Seq<u8>,
    hdr: Seq<u8>,
    dir: Seq<u8>,
    data0: Seq<u8>,
    patched: Seq<u8>,
    header_checksum: u32,
    ss: u32,
    cks: u32,
    adjustment: u32,
    file_checksum: u32,
    n: int,
)
    requires
        out == hdr + dir + patched,
        hdr.len() == 12,
        dir.len() == 16 * n,
        n >= 0,
        spec_checksum(hdr) == header_checksum,
        spec_checksum(dir) == ss,
        spec_checksum(data0) == cks,
        spec_checksum(patched) == wadd(spec_checksum(data0), adjustment),
        file_checksum == wadd(header_checksum, wadd(ss, cks)),
        adjustment == wsub(SFNT_CHECKSUM, file_checksum),
    ensures
        spec_checksum(out) == SFNT_CHECKSUM,
{
    assert(out =~= (hdr + dir) + patched);
    lemma_checksum_concat(hdr, dir);
    lemma_checksum_concat(hdr + dir, patched);
    let hd = wadd(header_checksum, ss);
    assert(spec_checksum(out) == wadd(hd, wadd(cks, adjustment)));
    lemma_wadd_shuffle(header_checksum, ss, cks, adjustment);
    assert(spec_checksum(out) == wadd(wadd(header_checksum, cks), wadd(ss, adjustment)));
    lemma_wadd_assoc(header_checksum, ss, cks);
    lemma_wadd_comm(ss, cks);
    lemma_wadd_assoc(header_checksum, cks, ss);
    // Reassociate to (file_checksum, adjustment).
    lemma_wadd_assoc(wadd(header_checksum, cks), ss, adjustment);
    assert(wadd(wadd(header_checksum, cks), ss) == file_checksum);
    assert(spec_checksum(out) == wadd(file_checksum, adjustment));
    lemma_wadd_comm(file_checksum, adjustment);
    lemma_wsub_wadd(SFNT_CHECKSUM, file_checksum);
}

/// The first header fields of the assembled file.
proof fn lemma_header_fields(out: Seq<u8>, n: int)
    requires
        0 <= n <= 0xFFF,
        out.len() >= 12,
        out.subrange(0, 12) == sfnt_header_bytes(n),
    ensures
        be32_at(out, 0) == SFNT_VERSION,
        be16_at(out, 4) == n as u16,
{
    let hdr = sfnt_header_bytes(n);
    lemma_be32_u32_bytes(SFNT_VERSION);
    assert(be32_at(out, 0) == SFNT_VERSION) by {
        assert(out[0] == hdr[0] && out[1] == hdr[1] && out[2] == hdr[2] && out[3] == hdr[3]) by {
            assert(forall|j: int| 0 <= j < 12 ==> out[j] == #[trigger] out.subrange(0, 12)[j]);
        }
        assert(hdr[0] == u32_bytes(SFNT_VERSION)[0] && hdr[1] == u32_bytes(SFNT_VERSION)[1]
            && hdr[2] == u32_bytes(SFNT_VERSION)[2] && hdr[3] == u32_bytes(SFNT_VERSION)[3]);
    }
    lemma_be16_u16_bytes(n as u16);
    assert(be16_at(out, 4) == n as u16) by {
        assert(out[4] == hdr[4] && out[5] == hdr[5]) by {
            assert(forall|j: int| 0 <= j < 12 ==> out[j] == #[trigger] out.subrange(0, 12)[j]);
        }
        assert(hdr[4] == u16_bytes(n as u16)[0] && hdr[5] == u16_bytes(n as u16)[1]);
    }
}


/// The concatenation of the (unpadded) table windows from record `idx` on.
pub open spec fn tables_stream(tables: Seq<TableRecord>, data: Seq<u8>, idx: int) -> Seq<u8>
    decreases tables.len() - idx when 0 <= idx <= tables.len()
{
    if idx >= tables.len() {
        Seq::empty()
    } else {
        data.subrange(
            tables[idx].offset as int,
            tables[idx].offset + tables[idx].length,
        ) + tables_stream(tables, data, idx + 1)
    }
}

/// Pull-based reader over the builder's table windows, in record order and
/// without the alignment padding: the byte stream handed to the compressor.
pub struct TableDataReader<'a> {
    pub tables: &'a Vec<TableRecord>,
    pub data: &'a Vec<u8>,
    pub table_idx: usize,
    pub pos_in_table: usize,
}

impl<'a> TableDataReader<'a> {
    /// Regions in bounds, position inside the current table.
    pub open spec fn wf(self) -> bool {
        &&& forall|i: int|
            0 <= i < self.tables@.len() ==> (#[trigger] self.tables@[i]).offset
                + self.tables@[i].length <= self.data@.len()
        &&& self.table_idx <= self.tables@.len()
        &&& (self.table_idx < self.tables@.len() ==> self.pos_in_table <= self.tables@[self.table_idx as int].length)
        &&& (self.table_idx == self.tables@.len() ==> self.pos_in_table == 0)
    }

    /// The bytes not yet yielded.
    pub open spec fn remaining(self) -> Seq<u8> {
        tables_stream(self.tables@, self.data@, self.table_idx as int).skip(
            self.pos_in_table as int,
        )
    }

    /// A reader positioned at the start of the stream.
    pub fn new(tables: &'a Vec<TableRecord>, data: &'a Vec<u8>) -> (r: TableDataReader<'a>)
        requires
            forall|i: int|
                0 <= i < tables@.len() ==> (#[trigger] tables@[i]).offset + tables@[i].length
                    <= data@.len(),
        ensures
            r.wf(),
            r.tables@ == tables@,
            r.data@ == data@,
            r.remaining() == tables_stream(tables@, data@, 0),
    {
        let r = TableDataReader { tables, data, table_idx: 0, pos_in_table: 0 };
        proof {
            assert(r.remaining() =~= tables_stream(tables@, data@, 0));
        }
        r
    }

    /// Yields up to `max_len` of the next bytes of the stream; empty exactly
    /// when the stream is exhausted (for any positive `max_len`).
    #[verifier::loop_isolation(false)]
    #[verifier::rlimit(100)]
    pub fn read(&mut self, max_len: usize) -> (r: Vec<u8>)
        requires
            old(self).wf(),
        ensures
            final(self).wf(),
            final(self).tables@ == old(self).tables@,
            final(self).data@ == old(self).data@,
            r@ == old(self).remaining().take(r@.len() as int),
            final(self).remaining() == old(self).remaining().skip(r@.len() as int),
            r@.len() <= max_len,
            r@.len() <= old(self).remaining().len(),
            max_len >= 1 && old(self).remaining().len() >= 1 ==> r@.len() >= 1,
            old(self).remaining().len() == 0 ==> r@.len() == 0,
    {
        let ghost tables = self.tables@;
        let ghost data = self.data@;
        // Skip exhausted and empty tables.
        while self.table_idx < self.tables.len() && self.pos_in_table
            == self.tables[self.table_idx].length as usize
            invariant
                self.wf(),
                self.tables@ == tables,
                self.data@ == data,
                self.remaining() == old(self).remaining(),
            decreases self.tables@.len() - self.table_idx,
        {
            proof {
                let idx = self.table_idx as int;
                let w = data.subrange(
                    tables[idx].offset as int,
                    tables[idx].offset + tables[idx].length,
                );
                assert(tables_stream(tables, data, idx).skip(self.pos_in_table as int)
                    =~= tables_stream(tables, data, idx + 1));
            }
            self.table_idx = self.table_idx + 1;
            self.pos_in_table = 0;
        }
        if self.table_idx == self.tables.len() {
            let r: Vec<u8> = Vec::new();
            proof {
                assert(self.remaining() =~= Seq::<u8>::empty());
                assert(r@ =~= self.remaining().take(0));
                assert(self.remaining() =~= self.remaining().skip(0));
            }
            return r;
        }
        let rec = self.tables[self.table_idx];
        let data_total = self.data.len();
        proof {
            assert(self.pos_in_table <= rec.length);
            assert(self.pos_in_table != rec.length);
            assert(rec.offset + rec.length <= data_total);
        }
        let in_table = rec.length as usize - self.pos_in_table;
        let take_n = if max_len < in_table {
            max_len
        } else {
            in_table
        };
        let start = rec.offset as usize + self.pos_in_table;
        let part = &self.data.as_slice()[start..start + take_n];
        let out = slice_to_vec(part);
        let ghost pre = *self;
        self.pos_in_table = self.pos_in_table + take_n;
        proof {
            let idx = pre.table_idx as int;
            let w = data.subrange(tables[idx].offset as int, tables[idx].offset + tables[idx].length);
            let stream = tables_stream(tables, data, idx);
            assert(stream == w + tables_stream(tables, data, idx + 1));
            assert(out@ =~= pre.remaining().take(take_n as int));
            assert(self.remaining() =~= pre.remaining().skip(take_n as int));
        }
        out
    }
}

/// The WOFF2 file signature.
pub const WOFF2_SIGNATURE: u32 = 0x774F_4632;

/// The directory flag byte of a known table tag: its index in the WOFF2 known
/// tags table, with the null-transform bits set for `glyf` and `loca`.
pub open spec fn spec_woff2_flags(tag: u32) -> u8 {
    if tag == TAG_CMAP {
        0
    } else if tag == TAG_HEAD {
        1
    } else if tag == TAG_HHEA {
        2
    } else if tag == TAG_HMTX {
        3
    } else if tag == TAG_MAXP {
        4
    } else if tag == TAG_NAME {
        5
    } else if tag == TAG_OS2 {
        6
    } else if tag == TAG_POST {
        7
    } else if tag == TAG_CVT {
        8
    } else if tag == TAG_FPGM {
        9
    } else if tag == TAG_GLYF {
        0xCA
    } else if tag == TAG_LOCA {
        0xCB
    } else {
        12
    }
}

/// Tags the subset writer can emit into a WOFF2 directory.
pub open spec fn known_woff2_tag(tag: u32) -> bool {
    tag == TAG_CMAP || tag == TAG_HEAD || tag == TAG_HHEA || tag == TAG_HMTX || tag == TAG_MAXP
        || tag == TAG_NAME || tag == TAG_OS2 || tag == TAG_POST || tag == TAG_CVT || tag
        == TAG_FPGM || tag == TAG_GLYF || tag == TAG_LOCA || tag == TAG_PREP
}

impl TableRecord {
    /// This record's WOFF2 directory entry: a flag byte and the Base-128
    /// encoded length.
    pub open spec fn woff2_entry_bytes(self) -> Seq<u8> {
        seq![spec_woff2_flags(self.tag.0)] + spec_base128_bytes(self.length)
    }

    /// Size of the WOFF2 directory entry for this record.
    pub fn woff2_len(&self) -> (r: usize)
        ensures
            r == self.woff2_entry_bytes().len(),
    {
        1 + uint_base128_len(self.length)
    }

    /// Writes the WOFF2 directory entry.
    pub fn write_woff2(&self, buffer: &mut Vec<u8>)
        requires
            known_woff2_tag(self.tag.0),
        ensures
            final(buffer)@ == old(buffer)@ + self.woff2_entry_bytes(),
    {
        let tag = self.tag.0;
        let flags: u8 = if tag == TAG_CMAP {
            0
        } else if tag == TAG_HEAD {
            1
        } else if tag == TAG_HHEA {
            2
        } else if tag == TAG_HMTX {
            3
        } else if tag == TAG_MAXP {
            4
        } else if tag == TAG_NAME {
            5
        } else if tag == TAG_OS2 {
            6
        } else if tag == TAG_POST {
            7
        } else if tag == TAG_CVT {
            8
        } else if tag == TAG_FPGM {
            9
        } else if tag == TAG_GLYF {
            0xCA  // known index 10 with the null transform bits
        } else if tag == TAG_LOCA {
            0xCB  // known index 11 with the null transform bits
        } else {
            12  // prep
        };
        buffer.push(flags);
        write_uint_base128(buffer, self.length);
        proof {
            assert(buffer@ =~= old(buffer)@ + self.woff2_entry_bytes());
        }
    }
}

/// The WOFF2 directory: one entry per record, in the writer's insertion order.
pub open spec fn woff2_entries_bytes(s: Seq<TableRecord>) -> Seq<u8>
    decreases s.len(),
{
    if s.len() == 0 {
        Seq::empty()
    } else {
        woff2_entries_bytes(s.drop_last()) + s.last().woff2_entry_bytes()
    }
}

/// What the Brotli encoder produces for the given bytes with its default
/// parameters: a pure function of the input.
pub uninterp spec fn brotli_of(data: Seq<u8>) -> Seq<u8>;

/// Relies on brotli::BrotliCompress with default encoder parameters: under the
/// crate's `portable-float` feature the cost model uses table-driven
/// logarithms instead of the platform's libm, so the output is a function of
/// the input bytes alone on every target; writing to a `Vec` cannot fail.
#[verifier::external_body]
fn brotli_compress(input: &Vec<u8>) -> (r: Vec<u8>)
    ensures
        r@ == brotli_of(input@),
{
    let mut output: Vec<u8> = Vec::new();
    let mut reader: &[u8] = input.as_slice();
    let params = brotli::enc::BrotliEncoderParams::default();
    brotli::BrotliCompress(&mut reader, &mut output, &params).expect("writing to a Vec never fails");
    output
}

impl FontBuilder {
    /// Emits the subset as a WOFF2 file: the 48-byte header, per-table flag
    /// and length entries in insertion order, and the Brotli-compressed
    /// concatenation of the (checksum-adjusted) table windows.
    #[verifier::rlimit(100)]
    pub fn into_woff2(self) -> (out: Vec<u8>)
        requires
            self.wf(),
            self.tables@.len() >= 1,
            builder_head_ok(self),
            forall|i: int|
                0 <= i < self.tables@.len() ==> known_woff2_tag(
                    (#[trigger] self.tables@[i]).tag.0,
                ),
        ensures
            out@.len() % 4 == 0,
            out@.len() >= 48,
            be32_at(out@, 0) == WOFF2_SIGNATURE,
            be32_at(out@, 4) == SFNT_VERSION,
            be16_at(out@, 12) == self.tables@.len(),
            woff2_fits(self.tables@, self.table_data@) ==> out@ == woff2_file_bytes(
                self.tables@,
                self.table_data@,
            ),
    {
        let ghost tables0 = self.tables@;
        let ghost data0 = self.table_data@;
        let mut this = self;
        let header = this.write_sfnt_header();
        let header_checksum = checksum(header.as_slice());
        let data_offset = this.data_offset();
        let data_offset_u32 = data_offset as u32;

        // The same whole-file checksum as the OpenType path would compute.
        let n = this.tables.len();
        let mut file_checksum = header_checksum;
        proof {
            assert forall|k: int| 0 <= k < tables0.len() implies (
            #[trigger] tables0[k]).offset <= 0xFFFF_0000 by {
                assert(rec_region_ok(tables0[k], data0));
            }
            lemma_wadd_zero(0);
            lemma_wadd_zero(header_checksum);
        }
        let mut i: usize = 0;
        let ghost mut bumped_seen: Seq<TableRecord> = Seq::empty();
        proof {
            assert(rec_self_sum(bumped_seen) == 0 && rec_checksum_sum(bumped_seen) == 0);
        }
        while i < n
            invariant
                0 <= i <= n,
                n == tables0.len(),
                1 <= n <= 0xFFF,
                forall|k: int| 0 <= k < n ==> (#[trigger] tables0[k]).offset <= 0xFFFF_0000,
                this.tables@ == tables0,
                this.table_data@ == data0,
                data_offset_u32 == 12 + 16 * (n as int),
                bumped_seen == bump_records(tables0.subrange(0, i as int), data_offset_u32),
                file_checksum == wadd(
                    header_checksum,
                    wadd(rec_self_sum(bumped_seen), rec_checksum_sum(bumped_seen)),
                ),
            decreases n - i,
        {
            let ghost adj0 = bumped_seen;
            let r = this.tables[i];
            let bumped = TableRecord {
                tag: r.tag,
                checksum: r.checksum,
                offset: r.offset + data_offset_u32,
                length: r.length,
            };
            let sc = bumped.self_checksum();
            file_checksum = wadd_exec(wadd_exec(file_checksum, sc), bumped.checksum);
            proof {
                bumped_seen = bumped_seen.push(bumped);
                lemma_rec_sums_push(adj0, bumped);
                lemma_bump_step(
                    header_checksum,
                    rec_self_sum(adj0),
                    rec_checksum_sum(adj0),
                    sc,
                    bumped.checksum,
                    wadd(header_checksum, wadd(rec_self_sum(adj0), rec_checksum_sum(adj0))),
                );
                assert(bumped_seen =~= bump_records(tables0.subrange(0, i + 1), data_offset_u32))
                    by {
                    assert(tables0.subrange(0, i + 1).drop_last() =~= tables0.subrange(
                        0,
                        i as int,
                    ));
                    assert(forall|t: int|
                        0 <= t < i + 1 ==> #[trigger] bump_records(
                            tables0.subrange(0, i + 1),
                            data_offset_u32,
                        )[t] == bump_rec(tables0[t], data_offset_u32));
                }
            }
            i = i + 1;
        }
        proof {
            assert(tables0.subrange(0, n as int) =~= tables0);
            assert(rec_checksum_sum(bumped_seen) == rec_checksum_sum(tables0)) by {
                lemma_bump_checksum_sum(tables0, bumped_seen);
            }
            assert(file_checksum == spec_file_checksum(tables0));
        }
        let adjustment = wsub_exec(SFNT_CHECKSUM, file_checksum);

        // Patch the head table's checksum adjustment in the table data.
        let mut head_pos: usize = 0;
        let mut found = false;
        let mut k: usize = 0;
        while k < n
            invariant
                0 <= k <= n,
                n == tables0.len(),
                this.tables@ == tables0,
                found ==> 0 <= head_pos < n && tables0[head_pos as int].tag.0 == TAG_HEAD
                    && (forall|t: int|
                    0 <= t < head_pos ==> (#[trigger] tables0[t]).tag.0 != TAG_HEAD),
                !found ==> forall|t: int| 0 <= t < k ==> (#[trigger] tables0[t]).tag.0 != TAG_HEAD,
            decreases n - k,
        {
            if !found && this.tables[k].tag.0 == TAG_HEAD {
                head_pos = k;
                found = true;
            }
            k = k + 1;
        }
        proof {
            if !found {
                let w = choose|w: int| 0 <= w < tables0.len() && (#[trigger] tables0[w]).tag.0
                    == TAG_HEAD;
                assert(false);
            }
            lemma_first_head_index(tables0, 0, head_pos as int);
            assert(rec_region_ok(tables0[head_pos as int], data0));
        }
        let head_rec = this.tables[head_pos];
        let patch_pos = head_rec.offset as usize + 8;
        let mut patched: Vec<u8> = Vec::new();
        let data_len = this.table_data.len();
        let mut j: usize = 0;
        while j < data_len
            invariant
                0 <= j <= data_len,
                data_len == data0.len(),
                this.table_data@ == data0,
                patch_pos + 4 <= data0.len(),
                patched@.len() == j,
                forall|t: int|
                    0 <= t < j ==> patched@[t] == patch4(data0, patch_pos as int, adjustment)[t],
            decreases data_len - j,
        {
            let b: u8 = if j >= patch_pos && j < patch_pos + 4 {
                let adj_bytes_idx = j - patch_pos;
                if adj_bytes_idx == 0 {
                    (adjustment / 0x100_0000) as u8
                } else if adj_bytes_idx == 1 {
                    ((adjustment / 0x1_0000) % 0x100) as u8
                } else if adj_bytes_idx == 2 {
                    ((adjustment / 0x100) % 0x100) as u8
                } else {
                    (adjustment % 0x100) as u8
                }
            } else {
                this.table_data[j]
            };
            patched.push(b);
            j = j + 1;
        }

        // Concatenate the table windows (in insertion order, no padding) and
        // compress them.
        proof {
            assert forall|t: int| 0 <= t < tables0.len() implies (#[trigger] tables0[t]).offset
                + tables0[t].length <= patched@.len() by {
                assert(rec_region_ok(tables0[t], data0));
            }
        }
        let mut reader = TableDataReader::new(&this.tables, &patched);
        let mut stream: Vec<u8> = Vec::new();
        loop
            invariant
                reader.wf(),
                reader.tables@ == tables0,
                reader.data@ == patched@,
                stream@ + reader.remaining() == tables_stream(tables0, patched@, 0),
            ensures
                stream@ == tables_stream(tables0, patched@, 0),
            decreases reader.remaining().len(),
        {
            let ghost pre_stream = stream@;
            let ghost r0 = reader.remaining();
            let chunk = reader.read(4096);
            if chunk.len() == 0 {
                proof {
                    assert(r0.len() == 0);
                    assert(stream@ =~= stream@ + reader.remaining());
                }
                break;
            }
            let ghost k = chunk@.len() as int;
            let mut chunk = chunk;
            stream.append(&mut chunk);
            proof {
                assert(r0.take(k) + r0.skip(k) =~= r0);
                assert(stream@ =~= pre_stream + r0.take(k));
                assert(stream@ + reader.remaining() =~= (pre_stream + r0.take(k)) + r0.skip(k));
                assert((pre_stream + r0.take(k)) + r0.skip(k) =~= pre_stream + r0);
            }
        }
        let compressed_data = brotli_compress(&stream);

        // Directory entries.
        let mut entries: Vec<u8> = Vec::new();
        let mut e: usize = 0;
        while e < n
            invariant
                0 <= e <= n,
                n == tables0.len(),
                this.tables@ == tables0,
                forall|t: int| 0 <= t < n ==> known_woff2_tag((#[trigger] tables0[t]).tag.0),
                entries@ == woff2_entries_bytes(tables0.subrange(0, e as int)),
                entries@.len() <= 6 * e,
            decreases n - e,
        {
            let ghost prefix = tables0.subrange(0, e as int);
            this.tables[e].write_woff2(&mut entries);
            proof {
                let next = tables0.subrange(0, e + 1);
                assert(next.drop_last() =~= prefix);
                assert(next.last() == tables0[e as int]);
                lemma_base128_roundtrip(tables0[e as int].length);
            }
            e = e + 1;
        }

        proof {
            assert(patched@ =~= patched_table_data(tables0, data0));
            assert(stream@ =~= woff2_stream(tables0, data0));
            assert(entries@ =~= woff2_entries_bytes(tables0));
        }
        assemble_woff2(n, entries, compressed_data, data_offset, data_len)
    }
}

/// The byte stream handed to the compressor: the unpadded table windows of
/// the checksum-adjusted data, in insertion order.
pub open spec fn woff2_stream(tables: Seq<TableRecord>, data: Seq<u8>) -> Seq<u8> {
    tables_stream(tables, patched_table_data(tables, data), 0)
}

/// The compressed body fits the container's 32-bit fields.
pub open spec fn woff2_fits(tables: Seq<TableRecord>, data: Seq<u8>) -> bool {
    brotli_of(woff2_stream(tables, data)).len() <= 0x8000_0000
}

/// The 48 header bytes of a WOFF2 file.
pub open spec fn woff2_header_48(
    n: int,
    entries_len: int,
    compressed_len: int,
    decompressed_len: int,
) -> Seq<u8> {
    u32_bytes(WOFF2_SIGNATURE) + u32_bytes(SFNT_VERSION) + u32_bytes(
        pad4(48 + entries_len + compressed_len) as u32,
    ) + u16_bytes(n as u16) + u16_bytes(0) + u32_bytes(decompressed_len as u32) + u32_bytes(
        compressed_len as u32,
    ) + u32_bytes(0) + u32_bytes(0) + u32_bytes(0) + u32_bytes(0) + u32_bytes(0) + u32_bytes(0)
}

/// The whole WOFF2 file a builder emits (when its body fits): header,
/// directory entries in insertion order, the Brotli-compressed stream, and
/// zero padding to a word boundary.
pub open spec fn woff2_file_bytes(tables: Seq<TableRecord>, data: Seq<u8>) -> Seq<u8> {
    let n = tables.len() as int;
    let entries = woff2_entries_bytes(tables);
    let body = brotli_of(woff2_stream(tables, data));
    let total = 48 + entries.len() + body.len();
    woff2_header_48(n, entries.len() as int, body.len() as int, 12 + 16 * n + data.len())
        + entries + body + zero_seq(pad4(total as int) - total)
}

/// Lays out the WOFF2 container around the directory entries and the
/// compressed body.
#[verifier::rlimit(100)]
fn assemble_woff2(
    n: usize,
    entries: Vec<u8>,
    compressed_data: Vec<u8>,
    data_offset: usize,
    data_len: usize,
) -> (out: Vec<u8>)
    requires
        1 <= n <= 0xFFF,
        entries@.len() <= 6 * n,
        data_offset == 12 + 16 * n,
    ensures
        out@.len() % 4 == 0,
        out@.len() >= 48,
        be32_at(out@, 0) == WOFF2_SIGNATURE,
        be32_at(out@, 4) == SFNT_VERSION,
        be16_at(out@, 12) == n,
        compressed_data@.len() <= 0x8000_0000 && data_len <= 0xFFFF_0000 ==> out@
            == woff2_header_48(
            n as int,
            entries@.len() as int,
            compressed_data@.len() as int,
            data_offset + data_len,
        ) + entries@ + compressed_data@ + zero_seq(
            pad4(48 + entries@.len() + compressed_data@.len() as int) - (48 + entries@.len()
                + compressed_data@.len()),
        ),
{
    if compressed_data.len() > 0x8000_0000 || data_len > 0xFFFF_0000 {
        // Cannot happen for data within the builder's bounds; kept to make the
        // arithmetic below manifestly safe.
        return empty_woff2_header(n);
    }
    let tables_len = entries.len();
    let mut file_len = 48 + tables_len + compressed_data.len();
    if file_len % 4 != 0 {
        file_len = file_len + (4 - file_len % 4);
    }
    let decompressed_len = data_offset + data_len;

    let mut out: Vec<u8> = Vec::new();
    write_u32(&mut out, WOFF2_SIGNATURE);
    write_u32(&mut out, SFNT_VERSION);
    write_u32(&mut out, file_len as u32);
    write_u16(&mut out, n as u16);
    write_u16(&mut out, 0);  // reserved
    write_u32(&mut out, decompressed_len as u32);
    write_u32(&mut out, compressed_data.len() as u32);
    write_u32(&mut out, 0);  // WOFF version (major, minor)
    write_u32(&mut out, 0);  // metadata offset
    write_u32(&mut out, 0);  // metadata length
    write_u32(&mut out, 0);  // original metadata length
    write_u32(&mut out, 0);  // private block offset
    write_u32(&mut out, 0);  // private block length
    let ghost header48 = out@;
    proof {
        assert(header48.subrange(0, 4) =~= u32_bytes(WOFF2_SIGNATURE));
        assert(header48.subrange(4, 8) =~= u32_bytes(SFNT_VERSION));
        assert(header48.subrange(12, 14) =~= u16_bytes(n as u16));
        assert(header48 =~= woff2_header_48(
            n as int,
            entries@.len() as int,
            compressed_data@.len() as int,
            data_offset + data_len,
        ));
    }
    let ghost entries0 = entries@;
    let ghost compressed0 = compressed_data@;
    let mut entries = entries;
    out.append(&mut entries);
    let mut compressed_data = compressed_data;
    out.append(&mut compressed_data);
    // Pad to a 4-byte boundary: required even without trailing blocks.
    let out = pad_to_word(out);
    proof {
        assert(out@.subrange(0, 4) =~= header48.subrange(0, 4));
        assert(out@.subrange(4, 8) =~= header48.subrange(4, 8));
        assert(out@.subrange(12, 14) =~= header48.subrange(12, 14));
        lemma_header_prefix(out@, n as u16);
        assert(out@ =~= header48 + entries0 + compressed0 + zero_seq(
            pad4(48 + entries0.len() + compressed0.len() as int) - (48 + entries0.len()
                + compressed0.len()),
        ));
    }
    out
}

/// Appends zero bytes until the buffer length is a multiple of four.
fn pad_to_word(buffer: Vec<u8>) -> (r: Vec<u8>)
    requires
        buffer@.len() <= 0xFFFF_FF00 || buffer@.len() % 4 == 0,
    ensures
        r@ == buffer@ + zero_seq(pad4(buffer@.len() as int) - buffer@.len()),
        r@.len() == pad4(buffer@.len() as int),
        r@.len() % 4 == 0,
{
    let mut out = buffer;
    let rem = out.len() % 4;
    if rem != 0 {
        let missing = 4 - rem;
        out.push(0);
        if missing >= 2 {
            out.push(0);
        }
        if missing == 3 {
            out.push(0);
        }
    }
    proof {
        assert(out@ =~= buffer@ + zero_seq(pad4(buffer@.len() as int) - buffer@.len()));
    }
    out
}

/// The first header words of a WOFF2 file under construction.
proof fn lemma_header_prefix(out: Seq<u8>, n: u16)
    requires
        out.len() >= 14,
        out.subrange(0, 4) == u32_bytes(WOFF2_SIGNATURE),
        out.subrange(4, 8) == u32_bytes(SFNT_VERSION),
        out.subrange(12, 14) == u16_bytes(n),
    ensures
        be32_at(out, 0) == WOFF2_SIGNATURE,
        be32_at(out, 4) == SFNT_VERSION,
        be16_at(out, 12) == n,
{
    lemma_be16_u16_bytes(n);
    assert(out[12] == u16_bytes(n)[0] && out[13] == u16_bytes(n)[1]) by {
        assert(forall|j: int| 12 <= j < 14 ==> out[j] == #[trigger] out.subrange(12, 14)[j - 12]);
    }
    lemma_be32_u32_bytes(WOFF2_SIGNATURE);
    lemma_be32_u32_bytes(SFNT_VERSION);
    assert(out[0] == u32_bytes(WOFF2_SIGNATURE)[0] && out[1] == u32_bytes(WOFF2_SIGNATURE)[1]
        && out[2] == u32_bytes(WOFF2_SIGNATURE)[2] && out[3] == u32_bytes(WOFF2_SIGNATURE)[3]) by {
        assert(forall|j: int| 0 <= j < 4 ==> out[j] == #[trigger] out.subrange(0, 4)[j]);
    }
    assert(out[4] == u32_bytes(SFNT_VERSION)[0] && out[5] == u32_bytes(SFNT_VERSION)[1] && out[6]
        == u32_bytes(SFNT_VERSION)[2] && out[7] == u32_bytes(SFNT_VERSION)[3]) by {
        assert(forall|j: int| 4 <= j < 8 ==> out[j] == #[trigger] out.subrange(4, 8)[j - 4]);
    }
}


/// A bare 48-byte WOFF2 header with zeroed length fields.
#[verifier::rlimit(100)]
fn empty_woff2_header(n: usize) -> (out: Vec<u8>)
    requires
        1 <= n <= 0xFFF,
    ensures
        out@.len() % 4 == 0,
        out@.len() >= 48,
        be32_at(out@, 0) == WOFF2_SIGNATURE,
        be32_at(out@, 4) == SFNT_VERSION,
        be16_at(out@, 12) == n,
{
    let mut out: Vec<u8> = Vec::new();
    write_u32(&mut out, WOFF2_SIGNATURE);
    write_u32(&mut out, SFNT_VERSION);
    write_u32(&mut out, 0);
    write_u16(&mut out, n as u16);
    write_u16(&mut out, 0);
    let ghost head16 = out@;
    let mut z: usize = 0;
    while z < 32
        invariant
            out@.len() == 16 + z,
            0 <= z <= 32,
            out@.subrange(0, 16) == head16,
            head16 == u32_bytes(WOFF2_SIGNATURE) + u32_bytes(SFNT_VERSION) + u32_bytes(0)
                + u16_bytes(n as u16) + u16_bytes(0),
        decreases 32 - z,
    {
        let ghost pre = out@;
        out.push(0);
        proof {
            assert(out@.subrange(0, 16) =~= pre.subrange(0, 16));
        }
        z = z + 1;
    }
    proof {
        assert(forall|j: int| 0 <= j < 16 ==> out@[j] == #[trigger] out@.subrange(0, 16)[j]);
        let a = u32_bytes(WOFF2_SIGNATURE);
        let b = u32_bytes(SFNT_VERSION);
        let c = u32_bytes(0);
        let d = u16_bytes(n as u16);
        assert(head16[4] == b[0] && head16[5] == b[1] && head16[6] == b[2] && head16[7] == b[3]);
        assert(head16[12] == d[0] && head16[13] == d[1]);
        assert(out@.subrange(0, 4) =~= u32_bytes(WOFF2_SIGNATURE));
        assert(out@.subrange(4, 8) =~= u32_bytes(SFNT_VERSION));
        assert(out@.subrange(12, 14) =~= u16_bytes(n as u16));
        lemma_header_prefix(out@, n as u16);
    }
    out
}


/// Total serialized size of the glyphs, in order.
pub open spec fn glyphs_concat(gs: Seq<GlyphWithMetrics>) -> Seq<u8>
    decreases gs.len(),
{
    if gs.len() == 0 {
        Seq::empty()
    } else {
        glyphs_concat(gs.drop_last()) + glyph_bytes(gs.last().inner)
    }
}

proof fn lemma_hmtx_bytes_len(gs: Seq<GlyphWithMetrics>, n: int)
    ensures
        hmtx_bytes(gs, n).len() <= 4 * gs.len(),
    decreases gs.len(),
{
    if gs.len() > 0 {
        lemma_hmtx_bytes_len(gs.drop_last(), n);
    }
}

proof fn lemma_loca_bytes_len(locations: Seq<usize>)
    ensures
        loca_short_bytes(locations).len() == 2 * locations.len(),
        loca_long_bytes(locations).len() == 4 * locations.len(),
    decreases locations.len(),
{
    if locations.len() > 0 {
        lemma_loca_bytes_len(locations.drop_last());
    }
}

proof fn lemma_seg_arrays_len(s: Seq<SegmentWithDelta>)
    ensures
        end_codes_bytes(s).len() == 2 * s.len(),
        start_codes_bytes(s).len() == 2 * s.len(),
        id_deltas_bytes(s).len() == 2 * s.len(),
        id_range_offsets_bytes(s).len() == 2 * s.len(),
    decreases s.len(),
{
    if s.len() > 0 {
        lemma_seg_arrays_len(s.drop_last());
    }
}

proof fn lemma_groups_bytes_len(s: Seq<SequentialMapGroup>)
    ensures
        groups_bytes(s).len() == 12 * s.len(),
    decreases s.len(),
{
    if s.len() > 0 {
        lemma_groups_bytes_len(s.drop_last());
    }
}

/// The rebuilt `cmap` table is small: at most the format 12 body for every
/// retained group, under a fixed ceiling.
proof fn lemma_cmap_bytes_len(t: CmapTable)
    requires
        cmap_writable(t),
        t matches CmapTable::Deltas(sd) ==> sd.glyph_id_array@.len() == 0,
    ensures
        cmap_table_bytes(t).len() <= 28 + 12 * 0x11_0000,
{
    match t {
        CmapTable::Deltas(sd) => {
            lemma_seg_arrays_len(sd.segments@);
        },
        CmapTable::Coverage(cv) => {
            lemma_groups_bytes_len(cv.groups@);
        },
    }
}

/// Format 4 carries the retained mapping exactly when the characters stay in
/// `..U+FFFF` and the coalesced segments plus the sentinel fit the format's
/// 16-bit length field.
pub open spec fn cmap_deltas_ok(m: Seq<(char, u16)>) -> bool {
    (m.len() == 0 || (m.last().0 as u32) < 0xFFFF) && spec_coalesce(m).len() + 1 <= 8189
}

/// The format 4 segments the retained mapping coalesces to, with the sentinel.
pub open spec fn subset_cmap_segments(m: Seq<(char, u16)>) -> Seq<SegmentWithDelta> {
    spec_coalesce(m).map_values(|g: SequentialMapGroup| seg_of_group(g)).push(sentinel_seg())
}

/// The whole rebuilt `cmap` table of the retained mapping.
#[verifier::opaque]
pub open spec fn subset_cmap_bytes(m: Seq<(char, u16)>) -> Seq<u8> {
    u16_bytes(0) + u16_bytes(1) + u16_bytes(0) + u16_bytes(
        if cmap_deltas_ok(m) {
            3
        } else {
            4
        },
    ) + u32_bytes(12) + (if cmap_deltas_ok(m) {
        deltas_subtable_bytes_of(subset_cmap_segments(m), Seq::empty())
    } else {
        coverage_subtable_bytes_of(spec_coalesce(m))
    })
}

/// The glyph end offsets the `glyf` serialization produces: a leading zero,
/// then one cumulative end per glyph.
pub open spec fn glyph_locations(gs: Seq<GlyphWithMetrics>) -> Seq<usize>
    decreases gs.len(),
{
    if gs.len() == 0 {
        seq![0usize]
    } else {
        glyph_locations(gs.drop_last()).push(glyphs_concat(gs).len() as usize)
    }
}

/// Which `loca` format the subset's locations select.
#[verifier::opaque]
pub open spec fn subset_loca_format(s: FontSubset) -> LocaFormat {
    if locations_all_even(glyph_locations(s.glyphs@)) && locations_in_bounds(
        glyph_locations(s.glyphs@),
    ) {
        LocaFormat::Short
    } else {
        LocaFormat::Long
    }
}

/// The subset's `loca` table bytes.
#[verifier::opaque]
pub open spec fn subset_loca_bytes(s: FontSubset) -> Seq<u8> {
    if subset_loca_format(s) == LocaFormat::Short {
        loca_short_bytes(glyph_locations(s.glyphs@))
    } else {
        loca_long_bytes(glyph_locations(s.glyphs@))
    }
}

/// The tags and contents of every table the subset writer emits, in its fixed
/// order (`head` last, so the adjustment can be patched at emission). Kept
/// opaque: [`lemma_subset_list_shape`] exposes its entries.
#[verifier::opaque]
pub open spec fn subset_table_list(s: FontSubset) -> Seq<(u32, Seq<u8>)> {
    let nh = hmetrics_count(glyph_advances(s.glyphs@));
    seq![(TAG_CMAP, subset_cmap_bytes(s.char_map@))] + (match s.font.cvt {
        Option::Some(v) => seq![(TAG_CVT, v@)],
        Option::None => Seq::empty(),
    }) + (match s.font.fpgm {
        Option::Some(v) => seq![(TAG_FPGM, v@)],
        Option::None => Seq::empty(),
    }) + seq![
        (TAG_HMTX, hmtx_bytes(s.glyphs@, nh)),
        (TAG_HHEA, hhea_bytes(s.font.hhea.raw@, nh as u16)),
        (
            TAG_MAXP,
            s.font.maxp@.subrange(0, 4) + u16_bytes(s.glyphs@.len() as u16)
                + s.font.maxp@.subrange(6, s.font.maxp@.len() as int),
        ),
        (TAG_NAME, s.font.name@),
        (TAG_OS2, s.font.os2@),
        (TAG_POST, u32_bytes(0x0003_0000) + s.font.post@.subrange(4, 32)),
    ] + (match s.font.prep {
        Option::Some(v) => seq![(TAG_PREP, v@)],
        Option::None => Seq::empty(),
    }) + seq![
        (TAG_GLYF, glyphs_concat(s.glyphs@)),
        (TAG_LOCA, subset_loca_bytes(s)),
        (TAG_HEAD, head_bytes(s.font.head@, subset_loca_format(s))),
    ]
}

/// Where table `i` of the list begins in the data heap: the padded lengths of
/// everything before it.
pub open spec fn list_offset(list: Seq<(u32, Seq<u8>)>, i: int) -> int
    decreases i when 0 <= i
{
    if i <= 0 {
        0
    } else {
        list_offset(list, i - 1) + pad4(list[i - 1].1.len() as int)
    }
}

/// The directory records the subset writer produces.
pub open spec fn subset_records(s: FontSubset) -> Seq<TableRecord> {
    let list = subset_table_list(s);
    Seq::new(
        list.len(),
        |i: int|
            TableRecord {
                tag: TableTag(list[i].0),
                checksum: spec_checksum(list[i].1),
                offset: list_offset(list, i) as u32,
                length: list[i].1.len() as u32,
            },
    )
}

/// The data heap the subset writer produces: every content padded to a word.
pub open spec fn subset_heap_bytes(list: Seq<(u32, Seq<u8>)>) -> Seq<u8>
    decreases list.len(),
{
    if list.len() == 0 {
        Seq::empty()
    } else {
        subset_heap_bytes(list.drop_last()) + list.last().1 + zero_seq(
            pad4(list.last().1.len() as int) - list.last().1.len(),
        )
    }
}

/// The unpadded window of record `i` in the builder's data heap.
pub open spec fn rec_data_window(b: FontBuilder, i: int) -> Seq<u8> {
    b.table_data@.subrange(
        b.tables@[i].offset as int,
        b.tables@[i].offset + b.tables@[i].length,
    )
}

/// One for a present optional table, zero otherwise.
pub open spec fn opt_count<T>(o: Option<T>) -> int {
    match o {
        Option::Some(_) => 1,
        Option::None => 0,
    }
}

/// The builder so far holds exactly the first `tables.len()` entries of the
/// subset's table list: records, data heap, and unpadded windows.
pub open spec fn builder_matches_prefix(b: FontBuilder, s: FontSubset) -> bool {
    let list = subset_table_list(s);
    &&& b.tables@.len() <= list.len()
    &&& (forall|i: int|
        0 <= i < b.tables@.len() ==> (#[trigger] b.tables@[i]) == subset_records(s)[i])
    &&& b.table_data@ == subset_heap_bytes(list.subrange(0, b.tables@.len() as int))
}

/// The heap prefix is exactly as long as the next table's offset.
proof fn lemma_heap_len(list: Seq<(u32, Seq<u8>)>, k: int)
    requires
        0 <= k <= list.len(),
    ensures
        subset_heap_bytes(list.subrange(0, k)).len() == list_offset(list, k),
        list_offset(list, k) >= 0,
    decreases k,
{
    if k > 0 {
        lemma_heap_len(list, k - 1);
        assert(list.subrange(0, k).drop_last() =~= list.subrange(0, k - 1));
        assert(list.subrange(0, k).last() == list[k - 1]);
    } else {
        assert(list.subrange(0, 0) =~= Seq::<(u32, Seq<u8>)>::empty());
    }
}

/// Each table's unpadded window inside the assembled heap is its content.
proof fn lemma_heap_windows(list: Seq<(u32, Seq<u8>)>, i: int)
    requires
        0 <= i < list.len(),
    ensures
        list_offset(list, i) + list[i].1.len() <= subset_heap_bytes(list).len(),
        subset_heap_bytes(list).subrange(
            list_offset(list, i),
            list_offset(list, i) + list[i].1.len(),
        ) == list[i].1,
    decreases list.len(),
{
    lemma_heap_len(list, i);
    lemma_heap_len(list, i + 1);
    lemma_heap_len(list, list.len() as int);
    assert(list.subrange(0, list.len() as int) =~= list);
    if i == list.len() - 1 {
        assert(list.subrange(0, i) =~= list.drop_last().subrange(0, i));
        lemma_heap_len(list.drop_last(), i);
        assert(subset_heap_bytes(list).subrange(
            list_offset(list, i),
            list_offset(list, i) + list[i].1.len(),
        ) =~= list[i].1);
    } else {
        lemma_heap_windows(list.drop_last(), i);
        assert(list.drop_last()[i] == list[i]);
        assert(list.subrange(0, i) =~= list.drop_last().subrange(0, i));
        assert(list_offset(list.drop_last(), i) == list_offset(list, i)) by {
            lemma_list_offset_prefix(list, i);
        }
        lemma_heap_len(list.drop_last(), list.len() - 1);
        assert(subset_heap_bytes(list).subrange(
            list_offset(list, i),
            list_offset(list, i) + list[i].1.len(),
        ) =~= subset_heap_bytes(list.drop_last()).subrange(
            list_offset(list, i),
            list_offset(list, i) + list[i].1.len(),
        ));
    }
}

/// Offsets into a list depend only on the entries before them.
proof fn lemma_list_offset_prefix(list: Seq<(u32, Seq<u8>)>, i: int)
    requires
        0 <= i < list.len(),
    ensures
        list_offset(list.drop_last(), i) == list_offset(list, i),
    decreases i,
{
    if i > 0 {
        lemma_list_offset_prefix(list, i - 1);
    }
}

/// Adding one table whose content is the next list entry keeps the builder
/// matching the list prefix.
#[verifier::rlimit(100)]
proof fn lemma_prefix_step(
    b0: FontBuilder,
    b1: FontBuilder,
    s: FontSubset,
    content: Seq<u8>,
    tag: u32,
)
    requires
        builder_matches_prefix(b0, s),
        b0.tables@.len() < subset_table_list(s).len(),
        content == subset_table_list(s)[b0.tables@.len() as int].1,
        tag == subset_table_list(s)[b0.tables@.len() as int].0,
        b1.tables@.len() == b0.tables@.len() + 1,
        forall|i: int|
            0 <= i < b0.tables@.len() ==> (#[trigger] b1.tables@[i]) == b0.tables@[i],
        b1.tables@.last() == (TableRecord {
            tag: TableTag(tag),
            checksum: spec_checksum(content),
            offset: b0.table_data@.len() as u32,
            length: content.len() as u32,
        }),
        b1.table_data@ == b0.table_data@ + content + zero_seq(
            pad4(content.len() as int) - content.len(),
        ),
    ensures
        builder_matches_prefix(b1, s),
{
    let list = subset_table_list(s);
    let k = b0.tables@.len() as int;
    lemma_heap_len(list, k);
    assert(list.subrange(0, k + 1).drop_last() =~= list.subrange(0, k));
    assert(list.subrange(0, k + 1).last() == list[k]);
    assert(b1.table_data@ =~= subset_heap_bytes(list.subrange(0, k + 1)));
    assert(b1.tables@[k] == subset_records(s)[k]);
}

/// A builder matching the full table list holds exactly the subset's records,
/// heap, and windows.
#[verifier::rlimit(100)]
proof fn lemma_write_final(b: FontBuilder, s: FontSubset)
    requires
        builder_matches_prefix(b, s),
        b.tables@.len() == subset_table_list(s).len(),
        b.table_data@.len() <= 0xFFFF_FFFF,
    ensures
        b.tables@ == subset_records(s),
        b.table_data@ == subset_heap_bytes(subset_table_list(s)),
        forall|i: int|
            0 <= i < b.tables@.len() ==> rec_data_window(b, i) == (
            #[trigger] subset_table_list(s)[i]).1,
{
    let list = subset_table_list(s);
    assert(b.tables@ =~= subset_records(s));
    assert(list.subrange(0, list.len() as int) =~= list);
    lemma_heap_len(list, list.len() as int);
    assert forall|i: int| 0 <= i < b.tables@.len() implies rec_data_window(b, i) == (
    #[trigger] list[i]).1 by {
        lemma_heap_windows(list, i);
        assert(b.tables@[i] == subset_records(s)[i]);
        lemma_heap_len(list, i);
        assert(0 <= list_offset(list, i) && list_offset(list, i) + list[i].1.len()
            <= b.table_data@.len());
        assert(b.tables@[i].offset == list_offset(list, i));
        assert(rec_data_window(b, i) =~= list[i].1);
    }
}

/// Lengths and entries of the subset's table list, segment by segment.
#[verifier::rlimit(100)]
proof fn lemma_subset_list_shape(s: FontSubset)
    ensures
        ({
            let list = subset_table_list(s);
            let c = opt_count(s.font.cvt);
            let f = opt_count(s.font.fpgm);
            let p = opt_count(s.font.prep);
            let nh = hmetrics_count(glyph_advances(s.glyphs@));
            &&& list.len() == 10 + c + f + p
            &&& list[0] == (TAG_CMAP, subset_cmap_bytes(s.char_map@))
            &&& (s.font.cvt matches Option::Some(v) ==> list[1] == (TAG_CVT, v@))
            &&& (s.font.fpgm matches Option::Some(v) ==> list[1 + c] == (TAG_FPGM, v@))
            &&& list[1 + c + f] == (TAG_HMTX, hmtx_bytes(s.glyphs@, nh))
            &&& list[2 + c + f] == (TAG_HHEA, hhea_bytes(s.font.hhea.raw@, nh as u16))
            &&& list[3 + c + f] == (
                TAG_MAXP,
                s.font.maxp@.subrange(0, 4) + u16_bytes(s.glyphs@.len() as u16)
                    + s.font.maxp@.subrange(6, s.font.maxp@.len() as int),
            )
            &&& list[4 + c + f] == (TAG_NAME, s.font.name@)
            &&& list[5 + c + f] == (TAG_OS2, s.font.os2@)
            &&& list[6 + c + f] == (
                TAG_POST,
                u32_bytes(0x0003_0000) + s.font.post@.subrange(4, 32),
            )
            &&& (s.font.prep matches Option::Some(v) ==> list[7 + c + f] == (TAG_PREP, v@))
            &&& list[7 + c + f + p] == (TAG_GLYF, glyphs_concat(s.glyphs@))
            &&& list[8 + c + f + p] == (TAG_LOCA, subset_loca_bytes(s))
            &&& list[9 + c + f + p] == (TAG_HEAD, head_bytes(s.font.head@, subset_loca_format(s)))
        }),
{
    reveal(subset_table_list);
}

impl FontSubset {
    /// The subset's tables fit the 32-bit offsets of the output container.
    pub open spec fn write_sizes_ok(self) -> bool {
        &&& self.font.head@.len() <= 0x10_0000
        &&& self.font.maxp@.len() <= 0x10_0000
        &&& self.font.name@.len() <= 0x1000_0000
        &&& self.font.os2@.len() <= 0x10_0000
        &&& self.font.post@.len() <= 0x1000_0000
        &&& (self.font.cvt matches Some(v) ==> v@.len() <= 0x1000_0000)
        &&& (self.font.fpgm matches Some(v) ==> v@.len() <= 0x1000_0000)
        &&& (self.font.prep matches Some(v) ==> v@.len() <= 0x1000_0000)
        &&& glyphs_concat(self.glyphs@).len() <= 0x1000_0000
        &&& self.char_map@.len() <= 0x11_0000
    }

    /// Assembles every rebuilt table into a [`FontBuilder`], in the fixed
    /// writer order, ending with `head` so its checksum adjustment can be
    /// patched during container emission.
    pub open spec fn writes_ok(self) -> bool {
        &&& self.wf()
        &&& self.write_sizes_ok()
    }

    /// Assembles every rebuilt table into a [`FontBuilder`], in the fixed
    /// writer order, ending with `head` so its checksum adjustment can be
    /// patched during container emission. The records and the data heap are
    /// exactly those of [`subset_records`] and [`subset_table_list`].
    pub fn write(&self) -> (r: FontBuilder)
        requires
            self.wf(),
            self.write_sizes_ok(),
        ensures
            r.wf(),
            10 <= r.tables@.len() <= 13,
            r.tables@ == subset_records(*self),
            r.table_data@ == subset_heap_bytes(subset_table_list(*self)),
            forall|i: int|
                0 <= i < r.tables@.len() ==> rec_data_window(r, i) == (
                #[trigger] subset_table_list(*self)[i]).1,
            builder_head_ok(r),
            forall|i: int|
                0 <= i < r.tables@.len() ==> known_woff2_tag((#[trigger] r.tables@[i]).tag.0),
    {
        self.write_stages()
    }

    /// Runs the four writer stages under the narrow facts they need.
    #[verifier::rlimit(100)]
    fn write_stages(&self) -> (r: FontBuilder)
        requires
            chars_ascending(self.char_map@.map_values(|e: (char, u16)| e.0)),
            self.char_map@.len() <= 0x11_0000,
            self.font.cvt matches Option::Some(v) ==> v@.len() <= 0x1000_0000,
            self.font.fpgm matches Option::Some(v) ==> v@.len() <= 0x1000_0000,
            self.font.prep matches Option::Some(v) ==> v@.len() <= 0x1000_0000,
            1 <= self.glyphs@.len() <= 0xFFFF,
            self.font.hhea.raw@.len() == 36,
            6 <= self.font.maxp@.len() <= 0x10_0000,
            self.font.name@.len() <= 0x1000_0000,
            self.font.os2@.len() <= 0x10_0000,
            32 <= self.font.post@.len() <= 0x1000_0000,
            glyphs_concat(self.glyphs@).len() <= 0x1000_0000,
            52 <= self.font.head@.len() <= 0x10_0000,
        ensures
            r.wf(),
            10 <= r.tables@.len() <= 13,
            r.tables@ == subset_records(*self),
            r.table_data@ == subset_heap_bytes(subset_table_list(*self)),
            forall|i: int|
                0 <= i < r.tables@.len() ==> rec_data_window(r, i) == (
                #[trigger] subset_table_list(*self)[i]).1,
            builder_head_ok(r),
            forall|i: int|
                0 <= i < r.tables@.len() ==> known_woff2_tag((#[trigger] r.tables@[i]).tag.0),
    {
        let mut builder = FontBuilder::new();
        proof {
            lemma_subset_list_shape(*self);
            assert(builder.table_data@ =~= subset_heap_bytes(
                subset_table_list(*self).subrange(0, 0),
            ));
        }
        self.write_cmap_table(&mut builder);
        self.write_metric_tables(&mut builder);
        self.write_passthrough_tables(&mut builder);
        self.write_glyph_tables(&mut builder);
        proof {
            lemma_write_final(builder, *self);
        }
        builder
    }

    /// Writes the rebuilt `cmap` and the optional `cvt ` and `fpgm` tables.
    #[verifier::loop_isolation(false)]
    #[verifier::rlimit(100)]
    fn write_cmap_table(&self, builder: &mut FontBuilder)
        requires
            chars_ascending(self.char_map@.map_values(|e: (char, u16)| e.0)),
            self.char_map@.len() <= 0x11_0000,
            self.font.cvt matches Option::Some(v) ==> v@.len() <= 0x1000_0000,
            self.font.fpgm matches Option::Some(v) ==> v@.len() <= 0x1000_0000,
            old(builder).wf(),
            old(builder).tables@.len() == 0,
            old(builder).table_data@.len() == 0,
            old(builder).table_data@ == subset_heap_bytes(
                subset_table_list(*self).subrange(0, 0),
            ),
        ensures
            final(builder).wf(),
            final(builder).tables@.len() == 1 + opt_count(self.font.cvt)
                + opt_count(self.font.fpgm),
            final(builder).table_data@.len() <= 0x2100_0000,
            builder_matches_prefix(*final(builder), *self),
            forall|i: int|
                0 <= i < final(builder).tables@.len() ==> known_woff2_tag(
                    (#[trigger] final(builder).tables@[i]).tag.0,
                ) && final(builder).tables@[i].tag.0 != TAG_HEAD,
    {
        let ghost list = subset_table_list(*self);
        proof {
            lemma_subset_list_shape(*self);
        }
        let cmap = CmapTable::from_map(&self.char_map);
        proof {
            lemma_cmap_bytes_len(cmap);
        }
        let mut cmap_content: Vec<u8> = Vec::new();
        cmap.write(&mut cmap_content);
        let ghost c0 = cmap_content@;
        proof {
            reveal(subset_cmap_bytes);
            assert(c0 =~= subset_cmap_bytes(self.char_map@)) by {
                match cmap {
                    CmapTable::Deltas(sd) => {
                        assert(sd.segments@ =~= subset_cmap_segments(self.char_map@));
                    },
                    CmapTable::Coverage(cv) => {
                        assert(cv.groups@ == spec_coalesce(self.char_map@));
                    },
                }
            }
            assert(c0 == list[0].1 && TAG_CMAP == list[0].0);
        }
        let ghost b0 = *builder;
        add_table_simple(builder, TableTag(TAG_CMAP), cmap_content);
        proof {
            lemma_prefix_step(b0, *builder, *self, c0, TAG_CMAP);
        }

        if let Some(cvt) = &self.font.cvt {
            let content = clone_bytes(cvt);
            let ghost c = content@;
            let ghost b1 = *builder;
            proof {
                assert(c == list[b1.tables@.len() as int].1 && TAG_CVT == list[b1.tables@.len() as int].0);
            }
            add_table_simple(builder, TableTag(TAG_CVT), content);
            proof {
                lemma_prefix_step(b1, *builder, *self, c, TAG_CVT);
            }
        }
        if let Some(fpgm) = &self.font.fpgm {
            let content = clone_bytes(fpgm);
            let ghost c = content@;
            let ghost b1 = *builder;
            proof {
                assert(c == list[b1.tables@.len() as int].1 && TAG_FPGM == list[b1.tables@.len() as int].0);
            }
            add_table_simple(builder, TableTag(TAG_FPGM), content);
            proof {
                lemma_prefix_step(b1, *builder, *self, c, TAG_FPGM);
            }
        }
    }

    /// Writes `hmtx` (computing the compressed metric count), `hhea`, and the
    /// patched `maxp`.
    #[verifier::loop_isolation(false)]
    #[verifier::rlimit(100)]
    fn write_metric_tables(&self, builder: &mut FontBuilder)
        requires
            1 <= self.glyphs@.len() <= 0xFFFF,
            self.font.hhea.raw@.len() == 36,
            6 <= self.font.maxp@.len() <= 0x10_0000,
            old(builder).wf(),
            old(builder).tables@.len() == 1 + opt_count(self.font.cvt) + opt_count(
                self.font.fpgm,
            ),
            old(builder).table_data@.len() <= 0x2100_0000,
            builder_matches_prefix(*old(builder), *self),
            forall|i: int|
                0 <= i < old(builder).tables@.len() ==> known_woff2_tag(
                    (#[trigger] old(builder).tables@[i]).tag.0,
                ) && old(builder).tables@[i].tag.0 != TAG_HEAD,
        ensures
            final(builder).wf(),
            final(builder).tables@.len() == old(builder).tables@.len() + 3,
            final(builder).table_data@.len() <= 0x2300_0000,
            builder_matches_prefix(*final(builder), *self),
            forall|i: int|
                0 <= i < final(builder).tables@.len() ==> known_woff2_tag(
                    (#[trigger] final(builder).tables@[i]).tag.0,
                ) && final(builder).tables@[i].tag.0 != TAG_HEAD,
    {
        let ghost list = subset_table_list(*self);
        proof {
            lemma_subset_list_shape(*self);
        }
        let mut hmtx_content: Vec<u8> = Vec::new();
        let number_of_h_metrics = write_hmtx_for_glyphs(&self.glyphs, &mut hmtx_content);
        proof {
            lemma_hmtx_bytes_len(self.glyphs@, number_of_h_metrics as int);
        }
        let ghost ch = hmtx_content@;
        let ghost b0 = *builder;
        proof {
            assert(ch == list[b0.tables@.len() as int].1 && TAG_HMTX == list[b0.tables@.len() as int].0);
        }
        add_table_simple(builder, TableTag(TAG_HMTX), hmtx_content);
        proof {
            lemma_prefix_step(b0, *builder, *self, ch, TAG_HMTX);
        }

        let hhea = HheaTable {
            raw: clone_bytes(&self.font.hhea.raw),
            number_of_h_metrics,
        };
        let mut hhea_content: Vec<u8> = Vec::new();
        hhea.write(&mut hhea_content);
        let ghost che = hhea_content@;
        let ghost b1 = *builder;
        proof {
            assert(che == list[b1.tables@.len() as int].1 && TAG_HHEA == list[b1.tables@.len() as int].0);
        }
        add_table_simple(builder, TableTag(TAG_HHEA), hhea_content);
        proof {
            lemma_prefix_step(b1, *builder, *self, che, TAG_HHEA);
        }

        let maxp = &self.font.maxp;
        let mut maxp_content: Vec<u8> = Vec::new();
        maxp_content.extend_from_slice(&maxp.as_slice()[0..4]);
        write_u16(&mut maxp_content, self.glyphs.len() as u16);
        maxp_content.extend_from_slice(&maxp.as_slice()[6..maxp.len()]);
        let ghost cm = maxp_content@;
        let ghost b2 = *builder;
        proof {
            assert(cm =~= self.font.maxp@.subrange(0, 4) + u16_bytes(self.glyphs@.len() as u16)
                + self.font.maxp@.subrange(6, self.font.maxp@.len() as int));
            assert(cm == list[b2.tables@.len() as int].1 && TAG_MAXP == list[b2.tables@.len() as int].0);
        }
        add_table_simple(builder, TableTag(TAG_MAXP), maxp_content);
        proof {
            lemma_prefix_step(b2, *builder, *self, cm, TAG_MAXP);
        }
    }

    /// Writes the passthrough `name` and `OS/2` tables, the truncated `post`,
    /// and the optional `prep`.
    #[verifier::loop_isolation(false)]
    #[verifier::rlimit(100)]
    fn write_passthrough_tables(&self, builder: &mut FontBuilder)
        requires
            self.font.name@.len() <= 0x1000_0000,
            self.font.os2@.len() <= 0x10_0000,
            32 <= self.font.post@.len() <= 0x1000_0000,
            self.font.prep matches Option::Some(v) ==> v@.len() <= 0x1000_0000,
            old(builder).wf(),
            old(builder).tables@.len() == 4 + opt_count(self.font.cvt) + opt_count(
                self.font.fpgm,
            ),
            old(builder).table_data@.len() <= 0x2300_0000,
            builder_matches_prefix(*old(builder), *self),
            forall|i: int|
                0 <= i < old(builder).tables@.len() ==> known_woff2_tag(
                    (#[trigger] old(builder).tables@[i]).tag.0,
                ) && old(builder).tables@[i].tag.0 != TAG_HEAD,
        ensures
            final(builder).wf(),
            final(builder).tables@.len() == old(builder).tables@.len() + 3 + opt_count(
                self.font.prep,
            ),
            final(builder).table_data@.len() <= 0x5400_0000,
            builder_matches_prefix(*final(builder), *self),
            forall|i: int|
                0 <= i < final(builder).tables@.len() ==> known_woff2_tag(
                    (#[trigger] final(builder).tables@[i]).tag.0,
                ) && final(builder).tables@[i].tag.0 != TAG_HEAD,
    {
        let ghost list = subset_table_list(*self);
        proof {
            lemma_subset_list_shape(*self);
        }
        let content = clone_bytes(&self.font.name);
        let ghost cn = content@;
        let ghost b0 = *builder;
        proof {
            assert(cn == list[b0.tables@.len() as int].1 && TAG_NAME == list[b0.tables@.len() as int].0);
        }
        add_table_simple(builder, TableTag(TAG_NAME), content);
        proof {
            lemma_prefix_step(b0, *builder, *self, cn, TAG_NAME);
        }

        let content = clone_bytes(&self.font.os2);
        let ghost co = content@;
        let ghost b1 = *builder;
        proof {
            assert(co == list[b1.tables@.len() as int].1 && TAG_OS2 == list[b1.tables@.len() as int].0);
        }
        add_table_simple(builder, TableTag(TAG_OS2), content);
        proof {
            lemma_prefix_step(b1, *builder, *self, co, TAG_OS2);
        }

        let post = &self.font.post;
        let mut post_content: Vec<u8> = Vec::new();
        write_u32(&mut post_content, 0x0003_0000);
        post_content.extend_from_slice(&post.as_slice()[4..32]);
        let ghost cp = post_content@;
        let ghost b2 = *builder;
        proof {
            assert(cp =~= u32_bytes(0x0003_0000) + self.font.post@.subrange(4, 32));
            assert(cp == list[b2.tables@.len() as int].1 && TAG_POST == list[b2.tables@.len() as int].0);
        }
        add_table_simple(builder, TableTag(TAG_POST), post_content);
        proof {
            lemma_prefix_step(b2, *builder, *self, cp, TAG_POST);
        }

        if let Some(prep) = &self.font.prep {
            let content = clone_bytes(prep);
            let ghost cr = content@;
            let ghost b3 = *builder;
            proof {
                assert(cr == list[b3.tables@.len() as int].1 && TAG_PREP == list[b3.tables@.len() as int].0);
            }
            add_table_simple(builder, TableTag(TAG_PREP), content);
            proof {
                lemma_prefix_step(b3, *builder, *self, cr, TAG_PREP);
            }
        }
    }

    /// Serializes every glyph in new-index order, tracking the cumulative end
    /// offsets the `loca` table needs.
    #[verifier::loop_isolation(false)]
    #[verifier::rlimit(100)]
    fn build_glyf(&self) -> (r: (Vec<u8>, Vec<usize>))
        requires
            glyphs_concat(self.glyphs@).len() <= 0x1000_0000,
        ensures
            r.0@ == glyphs_concat(self.glyphs@),
            r.1@ == glyph_locations(self.glyphs@),
            r.1@.len() == self.glyphs@.len() + 1,
            forall|t: int| 0 <= t < r.1@.len() ==> (#[trigger] r.1@[t]) <= r.0@.len(),
    {
        let mut glyf_content: Vec<u8> = Vec::new();
        let mut locations: Vec<usize> = Vec::new();
        locations.push(0);
        let glyph_count = self.glyphs.len();
        let mut g: usize = 0;
        proof {
            assert(locations@ =~= glyph_locations(self.glyphs@.subrange(0, 0)));
        }
        while g < glyph_count
            invariant
                0 <= g <= glyph_count,
                glyph_count == self.glyphs@.len(),
                glyf_content@ == glyphs_concat(self.glyphs@.subrange(0, g as int)),
                glyf_content@.len() <= glyphs_concat(self.glyphs@).len(),
                locations@ == glyph_locations(self.glyphs@.subrange(0, g as int)),
                locations@.len() == g + 1,
                forall|t: int|
                    0 <= t < locations@.len() ==> (#[trigger] locations@[t])
                        <= glyf_content@.len(),
                locations@.last() == glyf_content@.len(),
            decreases glyph_count - g,
        {
            let ghost prefix = self.glyphs@.subrange(0, g as int);
            self.glyphs[g].inner.write(&mut glyf_content);
            proof {
                let next = self.glyphs@.subrange(0, g + 1);
                assert(next.drop_last() =~= prefix);
                assert(next.last() == self.glyphs@[g as int]);
                lemma_glyphs_concat_prefix(self.glyphs@, g + 1);
            }
            locations.push(glyf_content.len());
            g = g + 1;
        }
        proof {
            assert(self.glyphs@.subrange(0, self.glyphs@.len() as int) =~= self.glyphs@);
        }
        (glyf_content, locations)
    }

    /// Writes `glyf` with its location list, `loca` in the chosen format, and
    /// finally `head` with a zeroed checksum adjustment.
    #[verifier::loop_isolation(false)]
    #[verifier::rlimit(100)]
    fn write_glyph_tables(&self, builder: &mut FontBuilder)
        requires
            1 <= self.glyphs@.len() <= 0xFFFF,
            glyphs_concat(self.glyphs@).len() <= 0x1000_0000,
            52 <= self.font.head@.len() <= 0x10_0000,
            old(builder).wf(),
            old(builder).tables@.len() == 7 + opt_count(self.font.cvt) + opt_count(
                self.font.fpgm,
            ) + opt_count(self.font.prep),
            old(builder).table_data@.len() <= 0x5400_0000,
            builder_matches_prefix(*old(builder), *self),
            forall|i: int|
                0 <= i < old(builder).tables@.len() ==> known_woff2_tag(
                    (#[trigger] old(builder).tables@[i]).tag.0,
                ) && old(builder).tables@[i].tag.0 != TAG_HEAD,
        ensures
            final(builder).wf(),
            final(builder).tables@.len() == subset_table_list(*self).len(),
            builder_matches_prefix(*final(builder), *self),
            builder_head_ok(*final(builder)),
            forall|i: int|
                0 <= i < final(builder).tables@.len() ==> known_woff2_tag(
                    (#[trigger] final(builder).tables@[i]).tag.0,
                ),
    {
        let ghost list = subset_table_list(*self);
        proof {
            lemma_subset_list_shape(*self);
        }
        let (glyf_content, locations) = self.build_glyf();
        let ghost cg = glyf_content@;
        let ghost b0 = *builder;
        proof {
            assert(cg == list[b0.tables@.len() as int].1 && TAG_GLYF == list[b0.tables@.len() as int].0);
        }
        add_table_simple(builder, TableTag(TAG_GLYF), glyf_content);
        proof {
            lemma_prefix_step(b0, *builder, *self, cg, TAG_GLYF);
        }

        // loca, in whichever format the locations allow.
        let mut loca_content: Vec<u8> = Vec::new();
        let loca_format = write_loca(&locations, &mut loca_content);
        proof {
            lemma_loca_bytes_len(locations@);
            reveal(subset_loca_format);
            reveal(subset_loca_bytes);
            assert(loca_format == subset_loca_format(*self));
        }
        let ghost cl = loca_content@;
        let ghost b1 = *builder;
        proof {
            assert(cl == list[b1.tables@.len() as int].1 && TAG_LOCA == list[b1.tables@.len() as int].0);
        }
        add_table_simple(builder, TableTag(TAG_LOCA), loca_content);
        proof {
            lemma_prefix_step(b1, *builder, *self, cl, TAG_LOCA);
        }

        // head, last: its adjustment field is zero until the container pass.
        let mut head_content: Vec<u8> = Vec::new();
        write_head_table(self.font.head.as_slice(), loca_format, &mut head_content);
        let ghost chd = head_content@;
        let ghost b2 = *builder;
        proof {
            assert(chd == list[b2.tables@.len() as int].1 && TAG_HEAD == list[b2.tables@.len() as int].0);
        }
        add_table_simple(builder, TableTag(TAG_HEAD), head_content);
        proof {
            lemma_prefix_step(b2, *builder, *self, chd, TAG_HEAD);
            let k = builder.tables@.len() - 1;
            let r = builder.tables@[k];
            assert(r.tag.0 == TAG_HEAD && r.length >= 12);
            assert(forall|j: int|
                r.offset + 8 <= j < r.offset + 12 ==> builder.table_data@[j] == 0) by {
                assert(forall|t: int|
                    0 <= t < chd.len() ==> #[trigger] builder.table_data@[r.offset + t] == chd[t]);
                assert(forall|t: int| 8 <= t < 12 ==> chd[t] == 0);
            }
            assert forall|t: int|
                0 <= t < builder.tables@.len() && (#[trigger] builder.tables@[t]).tag.0
                    == TAG_HEAD implies {
                let rr = builder.tables@[t];
                &&& rr.length >= 12
                &&& (forall|j: int|
                    rr.offset + 8 <= j < rr.offset + 12 ==> builder.table_data@[j] == 0)
            } by {
                assert(t == k);
            }
        }
    }

    /// Serializes this subset to the OpenType format (§`sfnt`): header, the
    /// tag-sorted directory over the subset's records with offsets shifted
    /// past the directory, then the table heap with `head.checksumAdjustment`
    /// patched. Every emitted table region re-verifies (`rec_ok`), and the
    /// whole file sums to the checksum constant.
    pub fn to_truetype(&self) -> (r: Vec<u8>)
        requires
            self.wf(),
            self.write_sizes_ok(),
        ensures
            ({
                let recs = subset_records(*self);
                let heap = subset_heap_bytes(subset_table_list(*self));
                let n = recs.len() as int;
                &&& r@.len() == 12 + 16 * n + heap.len()
                &&& r@.len() % 4 == 0
                &&& r@.subrange(0, 12) == sfnt_header_bytes(n)
                &&& be32_at(r@, 0) == SFNT_VERSION
                &&& be16_at(r@, 4) == n
                &&& spec_checksum(r@) == SFNT_CHECKSUM
                &&& r@.subrange(12 + 16 * n, r@.len() as int) == patched_table_data(recs, heap)
                &&& dir_records(r@, n).to_multiset() == bump_records(
                    recs,
                    (12 + 16 * n) as u32,
                ).to_multiset()
                &&& (forall|i: int, j: int| 0 <= i < j < n ==> rec_tag(r@, i) <= rec_tag(r@, j))
                &&& (forall|i: int| 0 <= i < n ==> rec_ok(r@, i))
            }),
    {
        self.write().into_truetype()
    }

    /// Serializes this subset to the WOFF2 format: the 48-byte header,
    /// per-table flag and Base-128 length entries in insertion order, and the
    /// Brotli-compressed concatenation of the checksum-adjusted table windows.
    pub fn to_woff2(&self) -> (r: Vec<u8>)
        requires
            self.wf(),
            self.write_sizes_ok(),
        ensures
            ({
                let recs = subset_records(*self);
                let heap = subset_heap_bytes(subset_table_list(*self));
                &&& r@.len() % 4 == 0
                &&& r@.len() >= 48
                &&& be32_at(r@, 0) == WOFF2_SIGNATURE
                &&& be32_at(r@, 4) == SFNT_VERSION
                &&& be16_at(r@, 12) == recs.len()
                &&& (woff2_fits(recs, heap) ==> r@ == woff2_file_bytes(recs, heap))
            }),
    {
        self.write().into_woff2()
    }
}

/// The serialized prefix of a glyph sequence never outgrows the whole.
proof fn lemma_glyphs_concat_prefix(gs: Seq<GlyphWithMetrics>, k: int)
    requires
        0 <= k <= gs.len(),
    ensures
        glyphs_concat(gs.subrange(0, k)).len() <= glyphs_concat(gs).len(),
    decreases gs.len() - k,
{
    if k < gs.len() {
        lemma_glyphs_concat_prefix(gs, k + 1);
        let next = gs.subrange(0, k + 1);
        assert(next.drop_last() =~= gs.subrange(0, k));
    } else {
        assert(gs.subrange(0, k) =~= gs);
    }
}

/// Copies a table's bytes into a fresh buffer.
fn clone_bytes(v: &Vec<u8>) -> (r: Vec<u8>)
    ensures
        r@ == v@,
{
    slice_to_vec(v.as_slice())
}


/// [`FontBuilder::add_table`] with a summary contract: used where the caller
/// needs the invariant and the new record's tag, not the exact bytes.
#[verifier::rlimit(100)]
fn add_table_simple(builder: &mut FontBuilder, tag: TableTag, content: Vec<u8>)
    requires
        old(builder).wf(),
        old(builder).table_data@.len() + content@.len() + 3 <= 0xFFFF_0000,
        old(builder).tables@.len() < 0xFFF,
    ensures
        final(builder).wf(),
        final(builder).tables@.len() == old(builder).tables@.len() + 1,
        final(builder).table_data@.len() == old(builder).table_data@.len() + pad4(
            content@.len() as int,
        ),
        final(builder).table_data@ == old(builder).table_data@ + content@ + zero_seq(
            pad4(content@.len() as int) - content@.len(),
        ),
        forall|i: int|
            0 <= i < old(builder).tables@.len() ==> (#[trigger] final(builder).tables@[i])
                == old(builder).tables@[i],
        final(builder).tables@.last() == (TableRecord {
            tag,
            checksum: spec_checksum(content@),
            offset: old(builder).table_data@.len() as u32,
            length: content@.len() as u32,
        }),
{
    builder.add_table(tag, content);
}

} // verus!
