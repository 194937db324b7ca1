use font_subset::cmap::{CmapTable, SegmentDeltas, SegmentWithDelta, SegmentedCoverage, SequentialMapGroup};

#[test]
fn coalescing_groups() {
    let map = vec![
        ('\u{41}', 10_u16),
        ('\u{42}', 11),
        ('\u{43}', 12),
        ('\u{50}', 20),
    ];
    let coverage = CmapTable::create_coverage(&map);
    assert_eq!(coverage.groups.len(), 2);
    assert_eq!(coverage.groups[0].start_char_code, 0x41);
    assert_eq!(coverage.groups[0].end_char_code, 0x43);
    assert_eq!(coverage.groups[0].start_glyph_id, 10);
    assert_eq!(coverage.groups[1].start_char_code, 0x50);
    assert_eq!(coverage.groups[1].end_char_code, 0x50);
    assert_eq!(coverage.groups[1].start_glyph_id, 20);
}

#[test]
fn format_selection_bmp_gives_deltas_with_sentinel() {
    let map = vec![('A', 1_u16), ('B', 2), ('C', 3)];
    match CmapTable::from_map(&map) {
        CmapTable::Deltas(deltas) => {
            let last = deltas.segments.last().unwrap();
            assert_eq!(last.start_code, 0xFFFF);
            assert_eq!(last.end_code, 0xFFFF);
            assert_eq!(last.id_delta, 1);
            assert_eq!(last.id_range_offset, 0);
            assert_eq!(deltas.segments.len(), 2);
            assert_eq!(deltas.segments[0].start_code, 0x41);
            assert_eq!(deltas.segments[0].end_code, 0x43);
            assert!(deltas.glyph_id_array.is_empty());
        }
        CmapTable::Coverage(_) => panic!("BMP chars must select format 4"),
    }
}

#[test]
fn format_selection_supplementary_gives_coverage() {
    let map = vec![('A', 1_u16), ('\u{1F600}', 2)];
    match CmapTable::from_map(&map) {
        CmapTable::Deltas(_) => panic!("chars beyond the BMP must select format 12"),
        CmapTable::Coverage(coverage) => {
            assert_eq!(coverage.groups.len(), 2);
            assert_eq!(coverage.groups[1].start_char_code, 0x1F600);
        }
    }
}

#[test]
fn deltas_lookup_uses_delta_and_sentinel() {
    let deltas = SegmentDeltas {
        segments: vec![
            SegmentWithDelta { start_code: 0x41, end_code: 0x43, id_delta: 10u16.wrapping_sub(0x41), id_range_offset: 0 },
            SegmentWithDelta { start_code: 0xFFFF, end_code: 0xFFFF, id_delta: 1, id_range_offset: 0 },
        ],
        glyph_id_array: vec![],
    };
    assert_eq!(deltas.map_char('A'), Ok(10));
    assert_eq!(deltas.map_char('B'), Ok(11));
    assert_eq!(deltas.map_char('D'), Ok(0));
    assert_eq!(deltas.map_char('@'), Ok(0));
}

#[test]
fn deltas_lookup_rejects_large_chars() {
    let deltas = SegmentDeltas { segments: vec![], glyph_id_array: vec![] };
    assert_eq!(deltas.map_char('\u{10000}'), Err(font_subset::MapError::CharTooLarge));
}

#[test]
fn coverage_lookup_maps_sequentially() {
    let coverage = SegmentedCoverage {
        groups: vec![SequentialMapGroup {
            start_char_code: 0x1F600,
            end_char_code: 0x1F603,
            start_glyph_id: 7,
        }],
    };
    assert_eq!(coverage.map_char('\u{1F600}'), 7);
    assert_eq!(coverage.map_char('\u{1F603}'), 10);
    assert_eq!(coverage.map_char('\u{1F604}'), 0);
    assert_eq!(coverage.map_char('A'), 0);
}
