use font_subset::font::LocaFormat;
use font_subset::glyph::{Glyph, GlyphWithMetrics};
use font_subset::write::{write_hmtx_for_glyphs, write_loca, FontBuilder, TableDataReader};
use font_subset::TableTag;

fn glyph(advance: u16, lsb: u16) -> GlyphWithMetrics {
    GlyphWithMetrics { inner: Glyph::Empty, advance, lsb }
}

#[test]
fn hmtx_tail_compression_collapses_equal_advances() {
    let glyphs = vec![glyph(500, 1), glyph(500, 2), glyph(500, 3)];
    let mut out = vec![];
    let n = write_hmtx_for_glyphs(&glyphs, &mut out);
    assert_eq!(n, 1);
    // One (advance, lsb) pair, then two bare left side bearings.
    assert_eq!(out, vec![1, 244, 0, 1, 0, 2, 0, 3]);
}

#[test]
fn hmtx_keeps_distinct_advances() {
    let glyphs = vec![glyph(500, 1), glyph(600, 2), glyph(600, 3)];
    let mut out = vec![];
    let n = write_hmtx_for_glyphs(&glyphs, &mut out);
    assert_eq!(n, 2);
}

#[test]
fn loca_format_selection() {
    let mut out = vec![];
    assert_eq!(write_loca(&vec![0, 2, 4], &mut out), LocaFormat::Short);
    assert_eq!(out, vec![0, 0, 0, 1, 0, 2]);

    let mut out = vec![];
    assert_eq!(write_loca(&vec![0, 3, 4], &mut out), LocaFormat::Long);
    assert_eq!(out.len(), 12);

    let mut out = vec![];
    assert_eq!(write_loca(&vec![0, 2, 0xFFFF * 2 + 2], &mut out), LocaFormat::Long);
}

#[test]
fn reader_concatenation_for_any_chunk_size() {
    let mut builder = FontBuilder::new();
    builder.add_table(TableTag(0x636D_6170), vec![1, 2, 3, 4, 5]); // 3 padding bytes follow
    builder.add_table(TableTag(0x676C_7966), vec![]); // empty table
    builder.add_table(TableTag(0x6865_6164), (0..32).collect());

    let mut expected = vec![];
    for record in &builder.tables {
        let start = record.offset as usize;
        expected.extend_from_slice(&builder.table_data[start..start + record.length as usize]);
    }

    for chunk_size in [1, 2, 3, 7, 100] {
        let mut reader = TableDataReader::new(&builder.tables, &builder.table_data);
        let mut assembled = vec![];
        loop {
            let chunk = reader.read(chunk_size);
            if chunk.is_empty() {
                break;
            }
            assert!(chunk.len() <= chunk_size);
            assembled.extend_from_slice(&chunk);
        }
        assert_eq!(assembled, expected);
    }
}
