//! The subset builder: reachability closure over composite glyphs and
//! old-to-new glyph renumbering.

use vstd::prelude::*;
use vstd::seq_lib::*;
use vstd::set_lib::{lemma_int_range, lemma_len_subset, set_int_range};

use crate::cmap::CmapTable;
use crate::errors::{MapError, ParseError, ParseErrorKind};
use crate::font::Font;
use crate::glyph::{
    glyph_components_bounded, record_component_ids, Glyph, GlyphComponent, GlyphWithMetrics,
};

verus! {

/// Composite glyphs nested deeper than this are rejected, so that a malicious
/// font cannot drive the reachability closure into unbounded recursion.
pub const COMPOSITE_DEPTH_LIMIT: u32 = 64;

/// First position at or after `i` whose entry carries the key `k`; the length
/// when there is none.
pub open spec fn key_position(s: Seq<(u16, u16)>, k: u16, i: int) -> int
    decreases s.len() - i when 0 <= i <= s.len()
{
    if i >= s.len() {
        s.len() as int
    } else if s[i].0 == k {
        i
    } else {
        key_position(s, k, i + 1)
    }
}

/// `key_position` lands either at the end or on an entry with the key.
proof fn lemma_key_position_props(s: Seq<(u16, u16)>, k: u16, i: int)
    requires
        0 <= i <= s.len(),
    ensures
        i <= key_position(s, k, i) <= s.len(),
        key_position(s, k, i) < s.len() ==> s[key_position(s, k, i)].0 == k,
        forall|j: int| i <= j < key_position(s, k, i) ==> (#[trigger] s[j]).0 != k,
    decreases s.len() - i,
{
    if i < s.len() && s[i].0 != k {
        lemma_key_position_props(s, k, i + 1);
    }
}

proof fn lemma_key_position(s: Seq<(u16, u16)>, k: u16, i: int, p: int)
    requires
        0 <= i <= p <= s.len(),
        forall|j: int| i <= j < p ==> (#[trigger] s[j]).0 != k,
        p == s.len() || s[p].0 == k,
    ensures
        key_position(s, k, i) == p,
    decreases p - i,
{
    if i < p {
        lemma_key_position(s, k, i + 1, p);
    }
}

/// The old-to-new glyph index mapping, kept as an association list with
/// pairwise-distinct keys.
#[derive(Debug, Clone)]
pub struct GlyphIdMap {
    pub entries: Vec<(u16, u16)>,
}

impl GlyphIdMap {
    pub open spec fn spec_keys(self) -> Seq<u16> {
        self.entries@.map_values(|e: (u16, u16)| e.0)
    }

    pub open spec fn spec_contains(self, k: u16) -> bool {
        key_position(self.entries@, k, 0) < self.entries@.len()
    }

    pub open spec fn spec_index(self, k: u16) -> u16
        recommends
            self.spec_contains(k),
    {
        self.entries@[key_position(self.entries@, k, 0)].1
    }

    /// Looks up the new index recorded for the old index `k`.
    pub fn get(&self, k: u16) -> (r: Option<u16>)
        ensures
            match r {
                Some(v) => self.spec_contains(k) && v == self.spec_index(k),
                None => !self.spec_contains(k) && (forall|j: int|
                    0 <= j < self.entries@.len() ==> (#[trigger] self.entries@[j]).0 != k),
            },
    {
        let ghost s = self.entries@;
        let len = self.entries.len();
        let mut i: usize = 0;
        while i < len
            invariant
                0 <= i <= len,
                s == self.entries@,
                len == s.len(),
                forall|j: int| 0 <= j < i ==> (#[trigger] s[j]).0 != k,
            decreases len - i,
        {
            let (key, value) = self.entries[i];
            if key == k {
                proof {
                    lemma_key_position(s, k, 0, i as int);
                }
                return Some(value);
            }
            i = i + 1;
        }
        proof {
            lemma_key_position(s, k, 0, len as int);
        }
        None
    }
}

/// Characters strictly ascending: the iteration order the re-encoder needs.
pub open spec fn chars_ascending(s: Seq<char>) -> bool {
    forall|i: int, j: int| 0 <= i < j < s.len() ==> (#[trigger] s[i]) < (#[trigger] s[j])
}

/// A sequence of distinct `u16` keys, all below `bound`, has at most `bound`
/// elements.
proof fn lemma_distinct_u16_bounded(keys: Seq<u16>, bound: int)
    requires
        keys.no_duplicates(),
        forall|i: int| 0 <= i < keys.len() ==> (#[trigger] keys[i]) < bound,
        0 <= bound,
    ensures
        keys.len() <= bound,
{
    let ints = keys.map_values(|k: u16| k as int);
    assert(forall|i: int, j: int|
        0 <= i < j < ints.len() ==> ints[i] != ints[j]) by {
        assert(forall|i: int| 0 <= i < ints.len() ==> ints[i] == keys[i] as int);
    }
    assert(ints.no_duplicates());
    ints.unique_seq_to_set();
    let range = set_int_range(0, bound);
    lemma_int_range(0, bound);
    assert(ints.to_set().subset_of(range)) by {
        assert forall|x: int| ints.to_set().contains(x) implies range.contains(x) by {
            let i = choose|i: int| 0 <= i < ints.len() && ints[i] == x;
            assert(keys[i] < bound);
        }
    }
    lemma_len_subset(ints.to_set(), range);
}

/// Glyph `idx` and everything it references can be pulled into a subset
/// within `depth` levels of composite nesting: the record is addressable and
/// decodes, and each component id is in turn subsettable one level lower.
pub open spec fn glyph_subsettable(f: Font, idx: u16, depth: int) -> bool
    decreases depth when depth >= 0
{
    let ids = record_component_ids(f.glyph_record_window(idx as int));
    &&& f.glyph_ok_at(idx as int)
    &&& if ids.len() == 0 {
        true
    } else {
        depth > 0 && (forall|j: int|
            0 <= j < ids.len() ==> glyph_subsettable(f, #[trigger] ids[j], depth - 1))
    }
}

/// Subset of a [`Font`] produced by retaining some characters and every glyph
/// they reach.
#[derive(Debug, Clone)]
pub struct FontSubset {
    pub font: Font,
    /// Retained characters with their new glyph indices, ascending by char.
    pub char_map: Vec<(char, u16)>,
    /// Old-to-new glyph renumbering, with `0 -> 0` pre-seeded.
    pub old_to_new_glyph_idx: GlyphIdMap,
    /// Retained glyphs; the position is the new glyph index.
    pub glyphs: Vec<GlyphWithMetrics>,
}

impl FontSubset {
    pub open spec fn map_entries(self) -> Seq<(u16, u16)> {
        self.old_to_new_glyph_idx.entries@
    }

    /// The renumbering invariant: as many map entries as retained glyphs,
    /// distinct old indices below the source glyph count, new indices in
    /// range, zero mapped to zero and only to zero.
    pub open spec fn map_ok(self) -> bool {
        let s = self.map_entries();
        &&& s.len() == self.glyphs@.len()
        &&& self.spec_keys().no_duplicates()
        &&& self.old_to_new_glyph_idx.spec_contains(0)
        &&& forall|i: int|
            0 <= i < s.len() ==> (#[trigger] s[i]).0 < self.font.glyph_count
        &&& forall|i: int| 0 <= i < s.len() ==> (#[trigger] s[i]).1 < self.glyphs@.len()
        &&& forall|i: int|
            0 <= i < s.len() ==> (((#[trigger] s[i]).0 == 0) <==> (s[i].1 == 0))
    }

    pub open spec fn spec_keys(self) -> Seq<u16> {
        self.old_to_new_glyph_idx.spec_keys()
    }

    /// The closure invariant: glyph 0 is the source's glyph 0, and every
    /// renumbered composite refers only to glyph indices in the subset.
    pub open spec fn glyphs_ok(self) -> bool {
        &&& 1 <= self.glyphs@.len() <= self.font.glyph_count
        &&& self.font.glyph_matches(0, self.glyphs@[0])
        &&& forall|i: int|
            1 <= i < self.glyphs@.len() ==> glyph_components_bounded(
                (#[trigger] self.glyphs@[i]).inner,
                self.glyphs@.len() as int,
            )
    }

    /// Characters ascend strictly and their glyph indices are in range.
    pub open spec fn char_map_ok(self) -> bool {
        &&& chars_ascending(self.char_map@.map_values(|e: (char, u16)| e.0))
        &&& forall|i: int|
            0 <= i < self.char_map@.len() ==> (#[trigger] self.char_map@[i]).1
                < self.glyphs@.len()
    }

    pub open spec fn wf(self) -> bool {
        &&& self.font.wf()
        &&& self.map_ok()
        &&& self.glyphs_ok()
        &&& self.char_map_ok()
    }

    /// Builds the subset of `font` retaining `distinct_chars`, which must be
    /// strictly ascending.
    pub fn new(font: Font, distinct_chars: &Vec<char>) -> (r: Result<FontSubset, ParseError>)
        requires
            font.wf(),
            chars_ascending(distinct_chars@),
        ensures
            (font.cmap.sorted() && font.glyph_ok_at(0) && (forall|i: int|
                0 <= i < distinct_chars@.len() ==> (match font.cmap.spec_map_char(
                    #[trigger] distinct_chars@[i],
                ) {
                    Ok(g) => glyph_subsettable(font, g, COMPOSITE_DEPTH_LIMIT as int),
                    Err(_) => false,
                }))) ==> r is Ok,
            match r {
                Ok(s) => {
                    &&& s.wf()
                    &&& s.font == font
                    &&& s.char_map@.len() == distinct_chars@.len()
                    &&& forall|i: int|
                        0 <= i < distinct_chars@.len() ==> (#[trigger] s.char_map@[i]).0
                            == distinct_chars@[i]
                    &&& font.cmap.sorted() ==> forall|i: int|
                        0 <= i < distinct_chars@.len() ==> (((#[trigger] s.char_map@[i]).1 == 0)
                            <==> font.cmap.spec_map_char(distinct_chars@[i]) == Ok::<
                            u16,
                            MapError,
                        >(0u16))
                },
                Err(_) => true,
            },
    {
        let mut this = Self::empty(font)?;
        let mut i: usize = 0;
        while i < distinct_chars.len()
            invariant
                0 <= i <= distinct_chars@.len(),
                chars_ascending(distinct_chars@),
                this.wf(),
                this.font == font,
                this.char_map@.len() == i,
                forall|j: int|
                    0 <= j < i ==> (#[trigger] this.char_map@[j]).0 == distinct_chars@[j],
                font.cmap.sorted() ==> forall|j: int|
                    0 <= j < i ==> (((#[trigger] this.char_map@[j]).1 == 0) <==> font.cmap.spec_map_char(
                        distinct_chars@[j],
                    ) == Ok::<u16, MapError>(0u16)),
            decreases distinct_chars@.len() - i,
        {
            let ch = distinct_chars[i];
            proof {
                assert forall|t: int| 0 <= t < this.char_map@.len() implies (
                #[trigger] this.char_map@[t]).0 < ch by {
                    assert(distinct_chars@[t] < distinct_chars@[i as int]);
                }
            }
            this.push_char(ch)?;
            i = i + 1;
        }
        Ok(this)
    }

    /// The subset that retains nothing but the mandatory glyph 0.
    fn empty(font: Font) -> (r: Result<FontSubset, ParseError>)
        requires
            font.wf(),
        ensures
            font.glyph_ok_at(0) ==> r is Ok,
            match r {
                Ok(s) => s.wf() && s.font == font && s.char_map@.len() == 0,
                Err(_) => true,
            },
    {
        let empty_glyph = font.glyph(0)?;
        let mut entries: Vec<(u16, u16)> = Vec::new();
        // The 0th glyph must always be mapped to itself.
        entries.push((0, 0));
        let mut glyphs: Vec<GlyphWithMetrics> = Vec::new();
        glyphs.push(empty_glyph);
        let this = FontSubset {
            font,
            char_map: Vec::new(),
            old_to_new_glyph_idx: GlyphIdMap { entries },
            glyphs,
        };
        proof {
            assert(this.map_entries() =~= seq![(0u16, 0u16)]);
            assert(this.spec_keys() =~= seq![0u16]);
            lemma_key_position(this.map_entries(), 0, 0, 0);
        }
        Ok(this)
    }

    /// Replaces every component's glyph id by its image in the subset,
    /// interning the referenced glyphs first.
    #[verifier::rlimit(100)]
    #[verifier::spinoff_prover]
    fn renumber_components(
        &mut self,
        components: Vec<GlyphComponent>,
        depth: u32,
        Ghost(old_idx): Ghost<u16>,
    ) -> (r: Result<Vec<GlyphComponent>, ParseError>)
        requires
            old(self).wf(),
            depth >= 1,
            !old(self).old_to_new_glyph_idx.spec_contains(old_idx),
            components@.map_values(|c: GlyphComponent| c.glyph_idx) == record_component_ids(
                old(self).font.glyph_record_window(old_idx as int),
            ),
        ensures
            final(self).wf(),
            final(self).font == old(self).font,
            final(self).char_map == old(self).char_map,
            old(self).glyphs@.len() <= final(self).glyphs@.len(),
            forall|t: int|
                0 <= t < old(self).glyphs@.len() ==> (#[trigger] final(self).glyphs@[t])
                    == old(self).glyphs@[t],
            glyph_subsettable(old(self).font, old_idx, depth as int) ==> r is Ok,
            match r {
                Ok(nc) => nc@.len() == components@.len() && (forall|t: int|
                    0 <= t < nc@.len() ==> (#[trigger] nc@[t]).glyph_idx
                        < final(self).glyphs@.len()),
                Err(_) => true,
            },
        decreases depth, 0int,
    {
        let mut new_components: Vec<GlyphComponent> = Vec::new();
        let len = components.len();
        let mut j: usize = 0;
        while j < len
            invariant
                depth >= 1,
                !old(self).old_to_new_glyph_idx.spec_contains(old_idx),
                components@.map_values(|c: GlyphComponent| c.glyph_idx) == record_component_ids(
                    old(self).font.glyph_record_window(old_idx as int),
                ),
                0 <= j <= len,
                len == components@.len(),
                self.wf(),
                self.font == old(self).font,
                self.char_map == old(self).char_map,
                old(self).glyphs@.len() <= self.glyphs@.len(),
                forall|t: int|
                    0 <= t < old(self).glyphs@.len() ==> (#[trigger] self.glyphs@[t]) == old(
                        self,
                    ).glyphs@[t],
                new_components@.len() == j,
                forall|t: int|
                    0 <= t < j ==> (#[trigger] new_components@[t]).glyph_idx
                        < self.glyphs@.len(),
            decreases len - j,
        {
            let mut component = components[j];
            let new_idx = match self.ensure_glyph(component.glyph_idx, (depth - 1) as u32) {
                Ok(v) => v,
                Err(e) => {
                    proof {
                        let ids = record_component_ids(
                            old(self).font.glyph_record_window(old_idx as int),
                        );
                        assert(ids[j as int] == component.glyph_idx);
                        assert(!glyph_subsettable(old(self).font, old_idx, depth as int));
                    }
                    return Err(e);
                },
            };
            component.glyph_idx = new_idx;
            new_components.push(component);
            j = j + 1;
        }
        Ok(new_components)
    }

    /// Returns the new index of the old glyph `old_idx`, pulling the glyph
    /// (and, recursively, every component it references) into the subset if it
    /// is not yet there.
    #[verifier::rlimit(100)]
    #[verifier::spinoff_prover]
    fn ensure_glyph(&mut self, old_idx: u16, depth: u32) -> (r: Result<u16, ParseError>)
        requires
            old(self).wf(),
        ensures
            final(self).wf(),
            final(self).font == old(self).font,
            final(self).char_map == old(self).char_map,
            old(self).glyphs@.len() <= final(self).glyphs@.len(),
            forall|t: int|
                0 <= t < old(self).glyphs@.len() ==> (#[trigger] final(self).glyphs@[t])
                    == old(self).glyphs@[t],
            old(self).old_to_new_glyph_idx.spec_contains(old_idx) ==> *final(self) == *old(self)
                && r == Ok::<u16, ParseError>(
                old(self).old_to_new_glyph_idx.spec_index(old_idx),
            ),
            old(self).old_to_new_glyph_idx.spec_contains(old_idx) || glyph_subsettable(
                old(self).font,
                old_idx,
                depth as int,
            ) ==> r is Ok,
            match r {
                Ok(new_idx) => new_idx < final(self).glyphs@.len() && ((new_idx == 0) <==> (
                old_idx == 0)),
                Err(_) => true,
            },
        decreases depth, 1int,
    {
        if let Some(new_idx) = self.old_to_new_glyph_idx.get(old_idx) {
            proof {
                let s = self.map_entries();
                lemma_key_position_props(s, old_idx, 0);
                let p = key_position(s, old_idx, 0);
                assert(s[p].0 == old_idx && s[p].1 == new_idx);
            }
            return Ok(new_idx);
        }

        let glyph = self.font.glyph(old_idx)?;
        let GlyphWithMetrics { inner, advance, lsb } = glyph;
        let inner = match inner {
            Glyph::Composite { header, components, instructions } => {
                if depth == 0 {
                    return Err(
                        ParseError {
                            kind: ParseErrorKind::RecursionLimitExceeded,
                            offset: 0,
                            table: None,
                        },
                    );
                }
                let new_components = self.renumber_components(
                    components,
                    depth,
                    Ghost(old_idx),
                )?;
                Glyph::Composite { header, components: new_components, instructions }
            },
            other => other,
        };

        // The depth-limited recursion cannot complete a cycle back to
        // `old_idx`, but the map is consulted once more so that the insertion
        // below provably keeps its keys distinct.
        if let Some(new_idx) = self.old_to_new_glyph_idx.get(old_idx) {
            proof {
                let s = self.map_entries();
                lemma_key_position_props(s, old_idx, 0);
                let p = key_position(s, old_idx, 0);
                assert(s[p].0 == old_idx && s[p].1 == new_idx);
            }
            return Ok(new_idx);
        }
        let ghost pre = *self;
        proof {
            let keys = pre.spec_keys();
            assert(forall|j: int|
                0 <= j < keys.len() ==> (#[trigger] keys[j]) == pre.map_entries()[j].0);
            assert(forall|j: int|
                0 <= j < keys.len() ==> (#[trigger] keys.push(old_idx)[j]) == keys[j]);
            assert(keys.push(old_idx)[keys.len() as int] == old_idx);
            assert(keys.push(old_idx).no_duplicates());
            assert(forall|j: int|
                0 <= j < keys.push(old_idx).len() ==> (#[trigger] keys.push(old_idx)[j])
                    < pre.font.glyph_count);
            lemma_distinct_u16_bounded(keys.push(old_idx), pre.font.glyph_count as int);
        }
        let new_idx = self.glyphs.len() as u16;
        self.glyphs.push(GlyphWithMetrics { inner, advance, lsb });
        self.old_to_new_glyph_idx.entries.push((old_idx, new_idx));
        proof {
            let s = self.map_entries();
            assert(s == pre.map_entries().push((old_idx, new_idx)));
            assert(self.spec_keys() =~= pre.spec_keys().push(old_idx));
            assert(forall|i: int|
                0 <= i < s.len() - 1 ==> (#[trigger] s[i]) == pre.map_entries()[i]);
            lemma_key_position_props(pre.map_entries(), 0, 0);
            let p0 = key_position(pre.map_entries(), 0, 0);
            lemma_key_position(s, 0, 0, p0);
            assert(self.old_to_new_glyph_idx.spec_contains(0));
        }
        Ok(new_idx)
    }

    /// Maps `ch` through the source font and records it with its new glyph
    /// index. Must be called with strictly increasing `ch`.
    fn push_char(&mut self, ch: char) -> (r: Result<(), ParseError>)
        requires
            old(self).wf(),
            forall|i: int|
                0 <= i < old(self).char_map@.len() ==> (#[trigger] old(self).char_map@[i]).0 < ch,
        ensures
            final(self).font == old(self).font,
            (old(self).font.cmap.sorted() && (match old(self).font.cmap.spec_map_char(ch) {
                Ok(g) => old(self).old_to_new_glyph_idx.spec_contains(g) || glyph_subsettable(
                    old(self).font,
                    g,
                    COMPOSITE_DEPTH_LIMIT as int,
                ),
                Err(_) => false,
            })) ==> r is Ok,
            match r {
                Ok(()) => {
                    &&& final(self).wf()
                    &&& final(self).char_map@.len() == old(self).char_map@.len() + 1
                    &&& forall|i: int|
                        0 <= i < old(self).char_map@.len() ==> (#[trigger] final(self).char_map@[i])
                            == old(self).char_map@[i]
                    &&& final(self).char_map@.last().0 == ch
                    &&& (old(self).font.cmap.sorted() ==> ((final(self).char_map@.last().1 == 0)
                        <==> old(self).font.cmap.spec_map_char(ch) == Ok::<u16, MapError>(0u16)))
                },
                Err(_) => final(self).char_map == old(self).char_map,
            },
    {
        let old_idx = match self.font.map_char(ch) {
            Ok(idx) => idx,
            Err(e) => {
                return Err(
                    ParseError { kind: ParseErrorKind::Mapping(e), offset: 0, table: None },
                );
            },
        };
        let new_idx = self.ensure_glyph(old_idx, COMPOSITE_DEPTH_LIMIT)?;
        let ghost cm0 = self.char_map@;
        self.char_map.push((ch, new_idx));
        proof {
            let cm = self.char_map@.map_values(|e: (char, u16)| e.0);
            let prev = cm0.map_values(|e: (char, u16)| e.0);
            assert(forall|i: int|
                0 <= i < cm0.len() ==> (#[trigger] cm[i]) == cm0[i].0);
            assert(cm[cm.len() - 1] == ch);
            assert forall|i: int, j: int| 0 <= i < j < cm.len() implies (#[trigger] cm[i]) < (
            #[trigger] cm[j]) by {
                if j < cm.len() - 1 {
                    assert(prev[i] == cm0[i].0 && prev[j] == cm0[j].0);
                    assert(prev[i] < prev[j]);
                } else {
                    assert(cm0[i].0 < ch);
                }
            }
        }
        Ok(())
    }
}

impl Font {
    /// Builds the subset of this font that retains `distinct_chars` (strictly
    /// ascending) and every glyph they reach.
    pub fn subset(self, distinct_chars: &Vec<char>) -> (r: Result<FontSubset, ParseError>)
        requires
            self.wf(),
            chars_ascending(distinct_chars@),
        ensures
            (self.cmap.sorted() && self.glyph_ok_at(0) && (forall|i: int|
                0 <= i < distinct_chars@.len() ==> (match self.cmap.spec_map_char(
                    #[trigger] distinct_chars@[i],
                ) {
                    Ok(g) => glyph_subsettable(self, g, COMPOSITE_DEPTH_LIMIT as int),
                    Err(_) => false,
                }))) ==> r is Ok,
            r matches Ok(s) ==> s.wf() && s.font == self && s.char_map@.len()
                == distinct_chars@.len(),
    {
        FontSubset::new(self, distinct_chars)
    }
}

} // verus!
