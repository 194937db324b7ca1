//! Four-byte OpenType table identifiers.

use vstd::prelude::*;

verus! {

/// A table tag stored as its big-endian `u32` value, so that numeric order on
/// tags coincides with lexicographic order on their four ASCII bytes.
pub const TAG_CMAP: u32 = 0x636D_6170;
pub const TAG_HEAD: u32 = 0x6865_6164;
pub const TAG_HHEA: u32 = 0x6868_6561;
pub const TAG_HMTX: u32 = 0x686D_7478;
pub const TAG_MAXP: u32 = 0x6D61_7870;
pub const TAG_NAME: u32 = 0x6E61_6D65;
pub const TAG_OS2: u32 = 0x4F53_2F32;
pub const TAG_POST: u32 = 0x706F_7374;
pub const TAG_LOCA: u32 = 0x6C6F_6361;
pub const TAG_GLYF: u32 = 0x676C_7966;
pub const TAG_CVT: u32 = 0x6376_7420;
pub const TAG_FPGM: u32 = 0x6670_676D;
pub const TAG_PREP: u32 = 0x7072_6570;

/// Identifier of an OpenType table: four ASCII bytes, held as the big-endian
/// `u32` they spell.
#[derive(Debug, Clone, Copy, PartialEq, Eq, Structural)]
pub struct TableTag(pub u32);

impl TableTag {
    /// The tag's value as a big-endian `u32`.
    pub fn as_u32(self) -> (r: u32)
        ensures
            r == self.0,
    {
        self.0
    }
}

} // verus!
