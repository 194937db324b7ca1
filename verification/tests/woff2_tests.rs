use font_subset::{Font, FontSubset};

fn push_u16_w(out: &mut Vec<u8>, v: u16) {
    out.extend_from_slice(&v.to_be_bytes());
}

fn push_u32_w(out: &mut Vec<u8>, v: u32) {
    out.extend_from_slice(&v.to_be_bytes());
}

fn checksum_w(data: &[u8]) -> u32 {
    let mut acc: u32 = 0;
    for chunk in data.chunks(4) {
        let mut word = [0_u8; 4];
        word[..chunk.len()].copy_from_slice(chunk);
        acc = acc.wrapping_add(u32::from_be_bytes(word));
    }
    acc
}

/// Same minimal font as the OpenType tests build: glyphs 1..=3 for 'A'..='C'.
fn build_simple_font() -> Vec<u8> {
    let mut cmap = vec![];
    push_u16_w(&mut cmap, 0);
    push_u16_w(&mut cmap, 1);
    push_u16_w(&mut cmap, 0);
    push_u16_w(&mut cmap, 3);
    push_u32_w(&mut cmap, 12);
    push_u16_w(&mut cmap, 4);
    push_u16_w(&mut cmap, 32);
    push_u16_w(&mut cmap, 0);
    push_u16_w(&mut cmap, 4);
    push_u16_w(&mut cmap, 4);
    push_u16_w(&mut cmap, 1);
    push_u16_w(&mut cmap, 0);
    push_u16_w(&mut cmap, 0x43);
    push_u16_w(&mut cmap, 0xFFFF);
    push_u16_w(&mut cmap, 0);
    push_u16_w(&mut cmap, 0x41);
    push_u16_w(&mut cmap, 0xFFFF);
    push_u16_w(&mut cmap, 1_u16.wrapping_sub(0x41));
    push_u16_w(&mut cmap, 1);
    push_u16_w(&mut cmap, 0);
    push_u16_w(&mut cmap, 0);

    let mut head = vec![];
    push_u32_w(&mut head, 0x0001_0000);
    push_u32_w(&mut head, 0);
    push_u32_w(&mut head, 0);
    push_u32_w(&mut head, 0x5F0F_3CF5);
    push_u16_w(&mut head, 0);
    push_u16_w(&mut head, 1000);
    head.extend_from_slice(&[0; 32]);
    push_u16_w(&mut head, 8);
    push_u16_w(&mut head, 2);
    push_u16_w(&mut head, 0);
    push_u16_w(&mut head, 0);

    let mut glyph = vec![];
    push_u16_w(&mut glyph, 1);
    glyph.extend_from_slice(&[0; 10]);

    let mut glyf = vec![];
    let mut offsets = vec![0_usize, 0];
    for _ in 0..3 {
        glyf.extend_from_slice(&glyph);
        offsets.push(glyf.len());
    }
    let mut loca = vec![];
    for &o in &offsets {
        push_u16_w(&mut loca, (o / 2) as u16);
    }

    let mut hhea = vec![0_u8; 34];
    hhea[0..4].copy_from_slice(&0x0001_0000_u32.to_be_bytes());
    push_u16_w(&mut hhea, 4);

    let mut hmtx = vec![];
    for gid in 0..4_u16 {
        push_u16_w(&mut hmtx, 500 + gid);
        push_u16_w(&mut hmtx, 10 + gid);
    }

    let mut maxp = vec![];
    push_u32_w(&mut maxp, 0x0001_0000);
    push_u16_w(&mut maxp, 4);

    let tables: Vec<([u8; 4], Vec<u8>)> = vec![
        (*b"cmap", cmap),
        (*b"glyf", glyf),
        (*b"head", head),
        (*b"hhea", hhea),
        (*b"hmtx", hmtx),
        (*b"loca", loca),
        (*b"maxp", maxp),
        (*b"name", vec![0; 8]),
        (*b"OS/2", vec![0; 8]),
        (*b"post", vec![0; 32]),
    ];
    let mut header = vec![];
    push_u32_w(&mut header, 0x0001_0000);
    push_u16_w(&mut header, tables.len() as u16);
    push_u16_w(&mut header, 0);
    push_u16_w(&mut header, 0);
    push_u16_w(&mut header, 0);
    let mut directory = vec![];
    let mut data = vec![];
    let data_start = 12 + 16 * tables.len();
    for (tag, content) in &tables {
        let offset = data_start + data.len();
        directory.extend_from_slice(tag);
        push_u32_w(&mut directory, checksum_w(content));
        push_u32_w(&mut directory, offset as u32);
        push_u32_w(&mut directory, content.len() as u32);
        data.extend_from_slice(content);
        while data.len() % 4 != 0 {
            data.push(0);
        }
    }
    let mut font = header;
    font.extend_from_slice(&directory);
    font.extend_from_slice(&data);
    font
}

#[test]
fn woff2_directory_round_trip() {
    let bytes = build_simple_font();
    let font = Font::parse(&bytes).unwrap();
    let subset = FontSubset::new(font, &vec!['A', 'B']).unwrap();
    let writer = subset.write();
    let tables = writer.tables.clone();
    let table_data = writer.table_data.clone();
    let woff2 = writer.into_woff2();

    assert_eq!(&woff2[0..4], &0x774F_4632_u32.to_be_bytes());
    assert_eq!(&woff2[4..8], &0x0001_0000_u32.to_be_bytes());
    assert_eq!(woff2.len() % 4, 0);
    let num_tables = u16::from_be_bytes([woff2[12], woff2[13]]) as usize;
    assert_eq!(num_tables, tables.len());
    let compressed_size =
        u32::from_be_bytes([woff2[20], woff2[21], woff2[22], woff2[23]]) as usize;

    // Walk the directory entries: a flag byte plus a Base-128 length each.
    let mut pos = 48;
    let mut lengths = vec![];
    for _ in 0..num_tables {
        pos += 1; // flags
        let mut len: u32 = 0;
        loop {
            let b = woff2[pos];
            pos += 1;
            len = len * 128 + u32::from(b & 0x7F);
            if b & 0x80 == 0 {
                break;
            }
        }
        lengths.push(len as usize);
    }

    let mut compressed = &woff2[pos..pos + compressed_size];
    let mut decompressed = vec![];
    brotli::BrotliDecompress(&mut compressed, &mut decompressed).unwrap();

    // The decompressed stream is the concatenation of the unpadded table
    // windows in insertion order, with `head.checksumAdjustment` patched.
    let mut stream_pos = 0;
    for (record, len) in tables.iter().zip(&lengths) {
        assert_eq!(record.length as usize, *len);
        let mut expected = table_data
            [record.offset as usize..record.offset as usize + record.length as usize]
            .to_vec();
        let mut actual = decompressed[stream_pos..stream_pos + len].to_vec();
        if record.tag.0 == u32::from_be_bytes(*b"head") {
            // Treat the checksum adjustment as zero on both sides.
            expected[8..12].copy_from_slice(&[0; 4]);
            actual[8..12].copy_from_slice(&[0; 4]);
        }
        assert_eq!(expected, actual);
        stream_pos += len;
    }
    assert_eq!(stream_pos, decompressed.len());
}
