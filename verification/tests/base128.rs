use font_subset::write::{uint_base128_len, write_uint_base128};

#[test]
fn leb128_encoding() {
    let samples = &[
        (0_u32, &[0_u8] as &[u8]),
        (1, &[1]),
        (127, &[127]),
        (128, &[0x81, 0]),
        (129, &[0x81, 1]),
        (16_383, &[0xff, 0x7f]),
        (16_384, &[0x81, 0x80, 0]),
    ];
    for &(val, expected) in samples {
        assert_eq!(uint_base128_len(val), expected.len());
        let mut buffer = vec![];
        write_uint_base128(&mut buffer, val);
        assert_eq!(buffer, expected);
    }
}

#[test]
fn base128_round_trip_samples() {
    for &val in &[0_u32, 5, 127, 128, 300, 16_383, 16_384, 1 << 20, (1 << 28) - 1, 1 << 28, u32::MAX] {
        let mut buffer = vec![];
        write_uint_base128(&mut buffer, val);
        assert_eq!(buffer.len(), uint_base128_len(val));
        let mut decoded: u64 = 0;
        for &b in &buffer {
            decoded = decoded * 128 + u64::from(b & 0x7f);
        }
        assert_eq!(decoded, u64::from(val));
    }
}
