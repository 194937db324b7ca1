//! `Glyph` and related types: decoding of simple and composite glyph records.

use vstd::prelude::*;

use crate::cursor::{be16_at, lemma_u16_bytes_roundtrip, u16_bytes, u32_bytes, Cursor};
use crate::errors::{ParseError, ParseErrorKind};

verus! {

/// Flag bit: the component's arguments are 16-bit words (a `u32` together).
pub const ARG_1_AND_2_ARE_WORDS: u16 = 0x0001;

/// Flag bit: the component carries a single scale value.
pub const WE_HAVE_A_SCALE: u16 = 0x0008;

/// Flag bit: another component follows this one.
pub const MORE_COMPONENTS: u16 = 0x0020;

/// Flag bit: the component carries separate x and y scales.
pub const WE_HAVE_AN_X_AND_Y_SCALE: u16 = 0x0040;

/// Flag bit: the component carries a 2x2 transformation matrix.
pub const WE_HAVE_A_TWO_BY_TWO: u16 = 0x0080;

/// A composite component's argument pair, kept exactly as wide as it was read.
#[derive(Debug, Clone, Copy, PartialEq, Eq, Structural)]
pub enum GlyphComponentArgs {
    U16(u16),
    U32(u32),
}

/// A composite component's transformation data, preserved verbatim.
#[derive(Debug, Clone, Copy, PartialEq, Eq, Structural)]
pub enum TransformData {
    Identity,
    Scale(u16),
    TwoScales(u16, u16),
    Affine(u16, u16, u16, u16),
}

/// One component of a composite glyph.
#[derive(Debug, Clone, Copy, PartialEq, Eq, Structural)]
pub struct GlyphComponent {
    pub flags: u16,
    pub glyph_idx: u16,
    pub args: GlyphComponentArgs,
    pub transform: TransformData,
}

/// A glyph record from the `glyf` table.
#[derive(Debug, Clone)]
pub enum Glyph {
    /// A zero-length `loca` entry: no outline at all.
    Empty,
    /// A simple glyph, kept as its verbatim byte window.
    Simple(Vec<u8>),
    /// A composite glyph, decoded far enough to renumber its components.
    Composite {
        /// xMin, yMin, xMax, yMax: 8 bytes.
        header: Vec<u8>,
        components: Vec<GlyphComponent>,
        /// Trailing bytes after the last component descriptor.
        instructions: Vec<u8>,
    },
}

/// A [`Glyph`] together with its metrics from the `hmtx` table.
#[derive(Debug, Clone)]
pub struct GlyphWithMetrics {
    pub inner: Glyph,
    pub advance: u16,
    pub lsb: u16,
}

/// The argument and transform variants match the component's flag bits.
pub open spec fn component_wf(c: GlyphComponent) -> bool {
    &&& (c.args is U32 <==> c.flags & ARG_1_AND_2_ARE_WORDS != 0)
    &&& match c.transform {
        TransformData::Scale(_) => c.flags & WE_HAVE_A_SCALE != 0,
        TransformData::TwoScales(_, _) => c.flags & WE_HAVE_A_SCALE == 0 && c.flags
            & WE_HAVE_AN_X_AND_Y_SCALE != 0,
        TransformData::Affine(_, _, _, _) => c.flags & WE_HAVE_A_SCALE == 0 && c.flags
            & WE_HAVE_AN_X_AND_Y_SCALE == 0 && c.flags & WE_HAVE_A_TWO_BY_TWO != 0,
        TransformData::Identity => c.flags & WE_HAVE_A_SCALE == 0 && c.flags
            & WE_HAVE_AN_X_AND_Y_SCALE == 0 && c.flags & WE_HAVE_A_TWO_BY_TWO == 0,
    }
}

/// A well-formed component list: every component matches its flags, every
/// component but the last has the continuation bit, and the last does not.
pub open spec fn components_wf(s: Seq<GlyphComponent>) -> bool {
    &&& s.len() >= 1
    &&& forall|j: int| 0 <= j < s.len() ==> component_wf(#[trigger] s[j])
    &&& forall|j: int|
        0 <= j < s.len() - 1 ==> (#[trigger] s[j]).flags & MORE_COMPONENTS != 0
    &&& s[s.len() - 1].flags & MORE_COMPONENTS == 0
}

/// The wire bytes of one component descriptor.
pub open spec fn component_bytes(c: GlyphComponent) -> Seq<u8> {
    u16_bytes(c.flags) + u16_bytes(c.glyph_idx) + (match c.args {
        GlyphComponentArgs::U16(v) => u16_bytes(v),
        GlyphComponentArgs::U32(v) => u32_bytes(v),
    }) + (match c.transform {
        TransformData::Identity => Seq::<u8>::empty(),
        TransformData::Scale(v) => u16_bytes(v),
        TransformData::TwoScales(x, y) => u16_bytes(x) + u16_bytes(y),
        TransformData::Affine(xx, xy, yx, yy) => u16_bytes(xx) + u16_bytes(xy) + u16_bytes(yx)
            + u16_bytes(yy),
    })
}

/// The wire bytes of a component list.
pub open spec fn components_bytes(s: Seq<GlyphComponent>) -> Seq<u8>
    decreases s.len(),
{
    if s.len() == 0 {
        Seq::empty()
    } else {
        components_bytes(s.drop_last()) + component_bytes(s.last())
    }
}


/// The wire bytes a glyph record serializes to: simple glyphs verbatim,
/// composites with a contour count of -1 and their (renumbered) components.
pub open spec fn glyph_bytes(g: Glyph) -> Seq<u8> {
    match g {
        Glyph::Empty => Seq::empty(),
        Glyph::Simple(b) => b@,
        Glyph::Composite { header, components, instructions } => u16_bytes(0xFFFF) + header@
            + components_bytes(components@) + instructions@,
    }
}

/// Every component of a composite refers to a glyph index below `n`.
pub open spec fn glyph_components_bounded(g: Glyph, n: int) -> bool {
    match g {
        Glyph::Composite { components, .. } => forall|j: int|
            0 <= j < components@.len() ==> (#[trigger] components@[j]).glyph_idx < n,
        _ => true,
    }
}

/// Bytes one component descriptor occupies, as its flag word dictates.
pub open spec fn component_required(flags: u16) -> int {
    4 + (if flags & ARG_1_AND_2_ARE_WORDS != 0 {
        4int
    } else {
        2
    }) + (if flags & WE_HAVE_A_SCALE != 0 {
        2int
    } else if flags & WE_HAVE_AN_X_AND_Y_SCALE != 0 {
        4
    } else if flags & WE_HAVE_A_TWO_BY_TWO != 0 {
        8
    } else {
        0
    })
}

/// The component chain starting at offset `i` fits inside `w`: each
/// descriptor's flag word is readable, the bytes its flags require are there,
/// and the chain ends with a descriptor whose continuation bit is clear.
pub open spec fn components_chain_ok(w: Seq<u8>, i: int) -> bool
    decreases w.len() - i when 0 <= i
{
    if i + 2 > w.len() {
        false
    } else {
        let flags = be16_at(w, i);
        let need = component_required(flags);
        if i + need > w.len() {
            false
        } else if flags & MORE_COMPONENTS != 0 {
            components_chain_ok(w, i + need)
        } else {
            true
        }
    }
}

/// The glyph ids named by the component chain starting at offset `i`.
pub open spec fn chain_component_indices(w: Seq<u8>, i: int) -> Seq<u16>
    decreases w.len() - i when 0 <= i
{
    if i + 2 > w.len() {
        Seq::empty()
    } else {
        let flags = be16_at(w, i);
        let need = component_required(flags);
        if i + need > w.len() {
            Seq::empty()
        } else if flags & MORE_COMPONENTS != 0 {
            seq![be16_at(w, i + 2)] + chain_component_indices(w, i + need)
        } else {
            seq![be16_at(w, i + 2)]
        }
    }
}

/// The glyph ids a record's components reference: empty unless the record is
/// a composite.
pub open spec fn record_component_ids(w: Seq<u8>) -> Seq<u16> {
    if w.len() >= 10 && be16_at(w, 0) >= 0x8000 {
        chain_component_indices(w, 10)
    } else {
        Seq::empty()
    }
}

/// The glyph record `w` decodes: it is empty, a simple glyph, or a composite
/// whose component chain fits.
pub open spec fn glyph_parse_ok(w: Seq<u8>) -> bool {
    ||| w.len() == 0
    ||| (w.len() >= 2 && be16_at(w, 0) < 0x8000)
    ||| (w.len() >= 10 && be16_at(w, 0) >= 0x8000 && components_chain_ok(w, 10))
}

/// `g` is the decoding of the glyph record `w`: empty records give [`Glyph::Empty`],
/// a non-negative contour count keeps the window verbatim, and a composite
/// decomposes into header, well-formed components, and trailing instructions.
pub open spec fn is_glyph_parse(w: Seq<u8>, g: Glyph) -> bool {
    match g {
        Glyph::Empty => w.len() == 0,
        Glyph::Simple(b) => w.len() >= 2 && be16_at(w, 0) < 0x8000 && b@ == w,
        Glyph::Composite { header, components, instructions } => {
            let body = components_bytes(components@);
            &&& w.len() >= 10
            &&& be16_at(w, 0) >= 0x8000
            &&& header@ == w.subrange(2, 10)
            &&& components_wf(components@)
            &&& 10 + body.len() <= w.len()
            &&& body == w.subrange(10, 10 + body.len() as int)
            &&& instructions@ == w.subrange(10 + body.len() as int, w.len() as int)
        },
    }
}

impl GlyphComponent {
    /// Reads one component descriptor; the second result says whether more
    /// components follow.
    pub(crate) fn new(cursor: &mut Cursor<'_>) -> (r: Result<(GlyphComponent, bool), ParseError>)
        requires
            old(cursor).wf(),
        ensures
            final(cursor).wf(),
            final(cursor).bytes@ == old(cursor).bytes@,
            final(cursor).end == old(cursor).end,
            final(cursor).off0 == old(cursor).off0,
            final(cursor).table == old(cursor).table,
            match r {
                Ok((c, more)) => {
                    &&& component_wf(c)
                    &&& more == (c.flags & MORE_COMPONENTS != 0)
                    &&& c.flags == be16_at(old(cursor).bytes@, old(cursor).pos as int)
                    &&& c.glyph_idx == be16_at(old(cursor).bytes@, old(cursor).pos + 2)
                    &&& component_bytes(c).len() == component_required(c.flags)
                    &&& old(cursor).pos + component_bytes(c).len() == final(cursor).pos
                    &&& final(cursor).pos <= old(cursor).end
                    &&& component_bytes(c) == old(cursor).bytes@.subrange(
                        old(cursor).pos as int,
                        final(cursor).pos as int,
                    )
                    &&& component_bytes(c).len() >= 4
                },
                Err(e) => {
                    &&& final(cursor).pos >= old(cursor).pos
                    &&& e.kind == ParseErrorKind::UnexpectedEof
                    &&& (old(cursor).remaining() < 2 || old(cursor).remaining()
                        < component_required(
                        be16_at(old(cursor).bytes@, old(cursor).pos as int),
                    ))
                },
            },
    {
        let ghost p0 = cursor.pos as int;
        let ghost bs = cursor.bytes@;
        let flags = cursor.read_u16()?;
        let glyph_idx = cursor.read_u16()?;
        proof {
            lemma_u16_bytes_roundtrip(bs, p0);
            lemma_u16_bytes_roundtrip(bs, p0 + 2);
        }
        let args = if flags & ARG_1_AND_2_ARE_WORDS != 0 {
            let v = cursor.read_u32()?;
            proof {
                crate::cursor::lemma_u32_bytes_roundtrip(bs, p0 + 4);
            }
            GlyphComponentArgs::U32(v)
        } else {
            let v = cursor.read_u16()?;
            proof {
                lemma_u16_bytes_roundtrip(bs, p0 + 4);
            }
            GlyphComponentArgs::U16(v)
        };
        let ghost p_args = cursor.pos as int;
        let transform = if flags & WE_HAVE_A_SCALE != 0 {
            let v = cursor.read_u16()?;
            proof {
                lemma_u16_bytes_roundtrip(bs, p_args);
            }
            TransformData::Scale(v)
        } else if flags & WE_HAVE_AN_X_AND_Y_SCALE != 0 {
            let x = cursor.read_u16()?;
            let y = cursor.read_u16()?;
            proof {
                lemma_u16_bytes_roundtrip(bs, p_args);
                lemma_u16_bytes_roundtrip(bs, p_args + 2);
            }
            TransformData::TwoScales(x, y)
        } else if flags & WE_HAVE_A_TWO_BY_TWO != 0 {
            let xx = cursor.read_u16()?;
            let xy = cursor.read_u16()?;
            let yx = cursor.read_u16()?;
            let yy = cursor.read_u16()?;
            proof {
                lemma_u16_bytes_roundtrip(bs, p_args);
                lemma_u16_bytes_roundtrip(bs, p_args + 2);
                lemma_u16_bytes_roundtrip(bs, p_args + 4);
                lemma_u16_bytes_roundtrip(bs, p_args + 6);
            }
            TransformData::Affine(xx, xy, yx, yy)
        } else {
            TransformData::Identity
        };
        let this = GlyphComponent { flags, glyph_idx, args, transform };
        proof {
            assert(component_bytes(this) =~= bs.subrange(p0, cursor.pos as int));
        }
        let has_more = flags & MORE_COMPONENTS != 0;
        Ok((this, has_more))
    }
}

impl Glyph {
    /// Decodes the glyph record in the cursor's window.
    #[verifier::loop_isolation(false)]
    pub(crate) fn new(raw: Cursor<'_>) -> (r: Result<Glyph, ParseError>)
        requires
            raw.wf(),
        ensures
            match r {
                Ok(g) => {
                    &&& is_glyph_parse(raw.window(), g)
                    &&& glyph_parse_ok(raw.window())
                    &&& (g matches Glyph::Composite { components, .. } ==> components@.map_values(
                        |c: GlyphComponent| c.glyph_idx,
                    ) == record_component_ids(raw.window()))
                },
                Err(e) => e.kind == ParseErrorKind::UnexpectedEof && !glyph_parse_ok(
                    raw.window(),
                ),
            },
    {
        let ghost w = raw.window();
        let ghost base = raw.pos as int;
        if raw.pos == raw.end {
            return Ok(Glyph::Empty);
        }
        let mut cursor = raw;
        let number_of_contours = cursor.read_u16()?;
        if number_of_contours <= 0x7FFF {
            // Simple glyph: the record is passed through verbatim.
            let bytes = raw.rest_vec();
            return Ok(Glyph::Simple(bytes));
        }
        // Composite glyph.
        let header = cursor.read_vec(8)?;
        assert(header@ =~= w.subrange(2, 10));
        let mut components: Vec<GlyphComponent> = Vec::new();
        let mut has_more_components = true;
        while has_more_components
            invariant
                cursor.wf(),
                cursor.bytes@ == raw.bytes@,
                cursor.end == raw.end,
                cursor.off0 == raw.off0,
                cursor.table == raw.table,
                base + 10 <= cursor.pos <= raw.end,
                has_more_components ==> (components_chain_ok(w, 10) <==> components_chain_ok(
                    w,
                    cursor.pos - base,
                )),
                !has_more_components ==> components_chain_ok(w, 10),
                has_more_components ==> (components_chain_ok(w, 10)
                    ==> chain_component_indices(w, 10) == components@.map_values(
                    |c: GlyphComponent| c.glyph_idx,
                ) + chain_component_indices(w, cursor.pos - base)),
                !has_more_components ==> chain_component_indices(w, 10) == components@.map_values(
                    |c: GlyphComponent| c.glyph_idx,
                ),
                components_bytes(components@) == w.subrange(10, cursor.pos - base),
                forall|j: int| 0 <= j < components@.len() ==> component_wf(#[trigger] components@[j]),
                forall|j: int|
                    0 <= j < components@.len() - 1 ==> (#[trigger] components@[j]).flags
                        & MORE_COMPONENTS != 0,
                has_more_components ==> (components@.len() == 0 || components@[components@.len()
                    - 1].flags & MORE_COMPONENTS != 0),
                !has_more_components ==> components@.len() >= 1 && components@[components@.len()
                    - 1].flags & MORE_COMPONENTS == 0,
            decreases raw.end - cursor.pos,
        {
            let ghost comps0 = components@;
            let ghost p0 = cursor.pos as int;
            let (component, new_has_more_components) = GlyphComponent::new(&mut cursor)?;
            components.push(component);
            has_more_components = new_has_more_components;
            proof {
                assert(components@.drop_last() =~= comps0);
                assert(components_bytes(components@) == components_bytes(comps0)
                    + component_bytes(component));
                assert(w.subrange(10, p0 - base) + bs_slice(raw.bytes@, p0, cursor.pos as int)
                    =~= w.subrange(10, cursor.pos - base));
                assert(component.flags == be16_at(w, p0 - base) && component.glyph_idx == be16_at(
                    w,
                    p0 - base + 2,
                ));
                if components_chain_ok(w, 10) {
                    assert(chain_component_indices(w, p0 - base) == seq![component.glyph_idx] + (
                    if component.flags & MORE_COMPONENTS != 0 {
                        chain_component_indices(w, cursor.pos - base)
                    } else {
                        Seq::<u16>::empty()
                    }));
                    assert(components@.map_values(|c: GlyphComponent| c.glyph_idx)
                        =~= comps0.map_values(|c: GlyphComponent| c.glyph_idx).push(
                        component.glyph_idx,
                    ));
                    assert(comps0.map_values(|c: GlyphComponent| c.glyph_idx).push(
                        component.glyph_idx,
                    ) + chain_component_indices(w, cursor.pos - base) =~= comps0.map_values(
                        |c: GlyphComponent| c.glyph_idx,
                    ) + (seq![component.glyph_idx] + chain_component_indices(
                        w,
                        cursor.pos - base,
                    )));
                    assert(comps0.map_values(|c: GlyphComponent| c.glyph_idx).push(
                        component.glyph_idx,
                    ) =~= comps0.map_values(|c: GlyphComponent| c.glyph_idx) + seq![
                        component.glyph_idx,
                    ]);
                }
            }
        }
        let instructions = cursor.rest_vec();
        assert(instructions@ =~= w.subrange(10 + components_bytes(components@).len() as int, w.len() as int));
        Ok(Glyph::Composite { header, components, instructions })
    }
}

/// Helper naming a slice of a byte sequence, used to keep proof text short.
pub open spec fn bs_slice(s: Seq<u8>, a: int, b: int) -> Seq<u8> {
    s.subrange(a, b)
}

} // verus!
