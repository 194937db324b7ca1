use font_subset::{Font, FontSubset, ParseErrorKind};

fn push_u16(out: &mut Vec<u8>, v: u16) {
    out.extend_from_slice(&v.to_be_bytes());
}

fn push_u32(out: &mut Vec<u8>, v: u32) {
    out.extend_from_slice(&v.to_be_bytes());
}

fn table_checksum(data: &[u8]) -> u32 {
    let mut acc: u32 = 0;
    for chunk in data.chunks(4) {
        let mut word = [0_u8; 4];
        word[..chunk.len()].copy_from_slice(chunk);
        acc = acc.wrapping_add(u32::from_be_bytes(word));
    }
    acc
}

fn cmap_table() -> Vec<u8> {
    let mut t = vec![];
    push_u16(&mut t, 0); // version
    push_u16(&mut t, 1); // numTables
    push_u16(&mut t, 0); // platform
    push_u16(&mut t, 3); // encoding
    push_u32(&mut t, 12); // subtable offset
    // Format 4 subtable mapping 'A'..='C' to glyphs 1..=3.
    push_u16(&mut t, 4); // format
    push_u16(&mut t, 32); // length
    push_u16(&mut t, 0); // language
    push_u16(&mut t, 4); // segCountX2
    push_u16(&mut t, 4); // searchRange
    push_u16(&mut t, 1); // entrySelector
    push_u16(&mut t, 0); // rangeShift
    push_u16(&mut t, 0x43); // endCode[0]
    push_u16(&mut t, 0xFFFF); // endCode[1]
    push_u16(&mut t, 0); // reserved pad
    push_u16(&mut t, 0x41); // startCode[0]
    push_u16(&mut t, 0xFFFF); // startCode[1]
    push_u16(&mut t, 1_u16.wrapping_sub(0x41)); // idDelta[0]
    push_u16(&mut t, 1); // idDelta[1]
    push_u16(&mut t, 0); // idRangeOffset[0]
    push_u16(&mut t, 0); // idRangeOffset[1]
    t
}

fn head_table(loca_format: u16) -> Vec<u8> {
    let mut t = vec![];
    push_u32(&mut t, 0x0001_0000); // version
    push_u32(&mut t, 0); // fontRevision
    push_u32(&mut t, 0); // checksumAdjustment
    push_u32(&mut t, 0x5F0F_3CF5); // magicNumber
    push_u16(&mut t, 0); // flags
    push_u16(&mut t, 1000); // unitsPerEm
    t.extend_from_slice(&[0; 16]); // created, modified
    t.extend_from_slice(&[0; 8]); // bounding box
    push_u16(&mut t, 0); // macStyle
    push_u16(&mut t, 8); // lowestRecPPEM
    push_u16(&mut t, 2); // fontDirectionHint
    push_u16(&mut t, loca_format); // indexToLocFormat
    push_u16(&mut t, 0); // glyphDataFormat
    assert_eq!(t.len(), 54);
    t
}

fn simple_glyph() -> Vec<u8> {
    let mut g = vec![];
    push_u16(&mut g, 1); // numberOfContours
    g.extend_from_slice(&[0; 10]); // bbox and payload, kept verbatim
    g
}

fn composite_glyph(component: u16) -> Vec<u8> {
    let mut g = vec![];
    push_u16(&mut g, 0xFFFF); // numberOfContours = -1
    g.extend_from_slice(&[0; 8]); // bbox
    push_u16(&mut g, 0); // flags: u16 args, no transform, no more components
    push_u16(&mut g, component);
    push_u16(&mut g, 0); // args
    g
}

/// A minimal valid font: glyph 0 empty, glyphs 1..=3 for 'A'..='C'. When
/// `composite` is set, glyph 3 is a composite referencing glyph 1.
fn build_font(composite: bool, loca_format_field: u16) -> Vec<u8> {
    let glyph1 = simple_glyph();
    let glyph2 = simple_glyph();
    let glyph3 = if composite { composite_glyph(1) } else { simple_glyph() };
    let mut glyf = vec![];
    let mut offsets = vec![0_usize, 0];
    glyf.extend_from_slice(&glyph1);
    offsets.push(glyf.len());
    glyf.extend_from_slice(&glyph2);
    offsets.push(glyf.len());
    glyf.extend_from_slice(&glyph3);
    offsets.push(glyf.len());

    let mut loca = vec![];
    for &o in &offsets {
        push_u16(&mut loca, (o / 2) as u16);
    }

    let mut hhea = vec![0_u8; 34];
    hhea[0..4].copy_from_slice(&0x0001_0000_u32.to_be_bytes());
    let mut hhea = hhea;
    push_u16(&mut hhea, 4); // numberOfHMetrics

    let mut hmtx = vec![];
    for gid in 0..4_u16 {
        push_u16(&mut hmtx, 500 + gid);
        push_u16(&mut hmtx, 10 + gid);
    }

    let mut maxp = vec![];
    push_u32(&mut maxp, 0x0001_0000);
    push_u16(&mut maxp, 4); // numGlyphs

    let tables: Vec<([u8; 4], Vec<u8>)> = vec![
        (*b"cmap", cmap_table()),
        (*b"glyf", glyf),
        (*b"head", head_table(loca_format_field)),
        (*b"hhea", hhea),
        (*b"hmtx", hmtx),
        (*b"loca", loca),
        (*b"maxp", maxp),
        (*b"name", vec![0; 8]),
        (*b"OS/2", vec![0; 8]),
        (*b"post", vec![0; 32]),
    ];

    let num_tables = tables.len() as u16;
    let mut header = vec![];
    push_u32(&mut header, 0x0001_0000);
    push_u16(&mut header, num_tables);
    push_u16(&mut header, 0);
    push_u16(&mut header, 0);
    push_u16(&mut header, 0);

    let mut directory = vec![];
    let mut data = vec![];
    let data_start = 12 + 16 * tables.len();
    for (tag, content) in &tables {
        let offset = data_start + data.len();
        directory.extend_from_slice(tag);
        push_u32(&mut directory, table_checksum(content));
        push_u32(&mut directory, offset as u32);
        push_u32(&mut directory, content.len() as u32);
        data.extend_from_slice(content);
        while data.len() % 4 != 0 {
            data.push(0);
        }
    }
    let mut font = header;
    font.extend_from_slice(&directory);
    font.extend_from_slice(&data);
    font
}

#[test]
fn parses_and_maps_synthetic_font() {
    let bytes = build_font(false, 0);
    let font = Font::parse(&bytes).unwrap();
    assert_eq!(font.map_char('A'), Ok(1));
    assert_eq!(font.map_char('B'), Ok(2));
    assert_eq!(font.map_char('C'), Ok(3));
    assert_eq!(font.map_char('D'), Ok(0));
}

#[test]
fn rejects_bad_sfnt_version() {
    let mut bytes = build_font(false, 0);
    bytes[0..4].copy_from_slice(&0x0002_0000_u32.to_be_bytes());
    let err = Font::parse(&bytes).unwrap_err();
    assert!(matches!(err.kind, ParseErrorKind::UnexpectedFontVersion));
}

#[test]
fn rejects_bad_loca_format() {
    let bytes = build_font(false, 2);
    let err = Font::parse(&bytes).unwrap_err();
    assert!(matches!(err.kind, ParseErrorKind::UnexpectedTableFormat(2)));
}

#[test]
fn rejects_corrupted_checksum() {
    let mut bytes = build_font(false, 0);
    let len = bytes.len();
    bytes[len - 1] ^= 0xFF; // corrupt the last table's data
    let err = Font::parse(&bytes).unwrap_err();
    assert!(matches!(err.kind, ParseErrorKind::Checksum { .. }));
}

#[test]
fn single_char_subset_round_trips() {
    let bytes = build_font(false, 0);
    let font = Font::parse(&bytes).unwrap();
    let subset = FontSubset::new(font, &vec!['A']).unwrap();
    let ttf = subset.to_truetype();

    // The whole file must sum to the checksum constant.
    assert_eq!(table_checksum(&ttf), 0xB1B0_AFBA);

    // The output parses again (which re-verifies every table checksum).
    let reparsed = Font::parse(&ttf).unwrap();
    let id = reparsed.map_char('A').unwrap();
    assert_ne!(id, 0);
    assert_eq!(reparsed.map_char('B'), Ok(0));
}

#[test]
fn ascii_subset_round_trips() {
    let bytes = build_font(false, 0);
    let font = Font::parse(&bytes).unwrap();
    let subset = FontSubset::new(font, &vec!['A', 'B', 'C']).unwrap();
    let ttf = subset.to_truetype();
    assert_eq!(table_checksum(&ttf), 0xB1B0_AFBA);
    let reparsed = Font::parse(&ttf).unwrap();
    for (i, ch) in ['A', 'B', 'C'].into_iter().enumerate() {
        let id = reparsed.map_char(ch).unwrap();
        assert_eq!(id as usize, i + 1);
    }
}

#[test]
fn composite_reachability_pulls_components() {
    let bytes = build_font(true, 0);
    let font = Font::parse(&bytes).unwrap();
    // 'C' maps to the composite glyph that references glyph 1 ('A').
    let subset = FontSubset::new(font, &vec!['C']).unwrap();
    assert_eq!(subset.glyphs.len(), 3); // missing glyph, base, composite
    assert_eq!(subset.char_map, vec![('C', 2)]);
    let ttf = subset.to_truetype();
    let reparsed = Font::parse(&ttf).unwrap();
    assert_eq!(reparsed.map_char('C'), Ok(2));
    assert_eq!(reparsed.map_char('A'), Ok(0));
}
